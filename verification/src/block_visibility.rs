//! Which blocks a reader shows: fresh blocks are hidden for a while, blocks that are to be deleted
//! after a while, and old blocks for good.

use vstd::prelude::*;

#[allow(unused_imports)]
use crate::block_index::{
    is_current_above, is_superseded_among, lemma_current_above, sources, supersedes,
};
use crate::block_index::{is_newer_version, BlockMeta};
use crate::text::{characters, same};

verus! {

/// The value of a digit of a block's name. The letters I, L, O and U are not digits.
pub open spec fn ulid_digit(c: char) -> Option<int> {
    if '0' <= c <= '9' {
        Some(c as int - '0' as int)
    } else if 'A' <= c <= 'H' {
        Some(c as int - 'A' as int + 10)
    } else if 'J' <= c <= 'K' {
        Some(c as int - 'J' as int + 18)
    } else if 'M' <= c <= 'N' {
        Some(c as int - 'M' as int + 20)
    } else if 'P' <= c <= 'T' {
        Some(c as int - 'P' as int + 22)
    } else if 'V' <= c <= 'Z' {
        Some(c as int - 'V' as int + 27)
    } else {
        None
    }
}

/// All characters are digits of a block's name.
pub open spec fn all_digits(text: Seq<char>) -> bool {
    forall|i: int| 0 <= i < text.len() ==> ulid_digit(#[trigger] text[i]) is Some
}

/// The number that digits stand for.
pub open spec fn digits_number(text: Seq<char>) -> int
    decreases text.len(),
{
    if text.len() == 0 {
        0
    } else {
        32 * digits_number(text.drop_last()) + ulid_digit(text.last())->0
    }
}

/// The time in milliseconds at which a block was named: the first ten of the twenty-six digits of
/// its name.
pub open spec fn ulid_milliseconds(ulid: Seq<char>) -> Option<int> {
    if ulid.len() == 26 && all_digits(ulid) && ulid[0] <= '7' {
        Some(digits_number(ulid.take(10)))
    } else {
        None
    }
}

fn digit(c: char) -> (value: Option<u64>)
    ensures
        match value {
            Some(value) => ulid_digit(c) == Some(value as int) && value < 32,
            None => ulid_digit(c) is None,
        },
{
    if '0' <= c && c <= '9' {
        Some(c as u64 - '0' as u64)
    } else if 'A' <= c && c <= 'H' {
        Some(c as u64 - 'A' as u64 + 10)
    } else if 'J' <= c && c <= 'K' {
        Some(c as u64 - 'J' as u64 + 18)
    } else if 'M' <= c && c <= 'N' {
        Some(c as u64 - 'M' as u64 + 20)
    } else if 'P' <= c && c <= 'T' {
        Some(c as u64 - 'P' as u64 + 22)
    } else if 'V' <= c && c <= 'Z' {
        Some(c as u64 - 'V' as u64 + 27)
    } else {
        None
    }
}

spec fn pow32(n: int) -> int
    decreases n,
{
    if n <= 0 {
        1
    } else {
        32 * pow32(n - 1)
    }
}

/// The time in milliseconds at which a block was named, if its name is a valid one.
pub fn ulid_time(ulid: &str) -> (time: Option<u64>)
    ensures
        match time {
            Some(time) => ulid_milliseconds(ulid@) == Some(time as int),
            None => ulid_milliseconds(ulid@) is None,
        },
{
    let text = characters(ulid);
    if text.len() != 26 || text[0] > '7' {
        return None;
    }
    let mut time: u64 = 0;
    let mut i: usize = 0;
    proof {
        reveal_with_fuel(pow32, 11);
    }
    while i < 26
        invariant
            i <= 26 == text@.len(),
            text@ == ulid@,
            pow32(10) == 0x4_0000_0000_0000,
            forall|k: int| 0 <= k < i ==> ulid_digit(#[trigger] text@[k]) is Some,
            i <= 10 ==> time == digits_number(text@.take(i as int)) && time < pow32(i as int),
            i > 10 ==> time == digits_number(text@.take(10)),
            forall|n: int| 0 <= n < 10 ==> #[trigger] pow32(n) <= 0x2000_0000_0000,
        decreases 26 - i,
    {
        match digit(text[i]) {
            Some(value) => {
                if i < 10 {
                    assert(text@.take(i + 1).drop_last() =~= text@.take(i as int));
                    assert(pow32(i + 1) == 32 * pow32(i as int));
                    time = time * 32 + value;
                }
            },
            None => {
                return None;
            },
        }
        i = i + 1;
    }
    Some(time)
}

/// A block is too fresh to be shown: it came less than a delay ago. A block of the compactor is
/// never too fresh. Without a time of upload its name says when it came; a name from the future
/// does not hide a block, a time of upload in the future does.
pub open spec fn too_fresh(
    source: Seq<char>,
    upload_time: Option<int>,
    ulid: Seq<char>,
    delay: int,
    now: int,
) -> bool {
    if source == "compactor"@ {
        false
    } else {
        match upload_time {
            Some(time) => now - time < delay,
            None => match ulid_milliseconds(ulid) {
                Some(time) => time <= now && now - time < delay,
                None => false,
            },
        }
    }
}

/// Whether a block is too fresh to be shown. All times are in milliseconds.
pub fn is_too_fresh(
    source: &str,
    upload_time: Option<i64>,
    ulid: &str,
    delay: u64,
    now: u64,
) -> (result: bool)
    ensures
        result == too_fresh(
            source@,
            match upload_time {
                Some(time) => Some(time as int),
                None => None,
            },
            ulid@,
            delay as int,
            now as int,
        ),
{
    if same(source, "compactor") {
        return false;
    }
    match upload_time {
        Some(time) => (now as i128 - time as i128) < delay as i128,
        None => match ulid_time(ulid) {
            Some(time) => time <= now && now - time < delay,
            None => false,
        },
    }
}

/// A block is too old to be shown: its largest time lies more than an age back. Times are in
/// milliseconds, the age is in seconds and nanoseconds.
pub open spec fn too_old(max_time: int, age: (u64, u32), now: int) -> bool {
    (now - max_time) * 1_000_000 > age.0 * 1_000_000_000 + age.1
}

/// Whether a block is too old to be shown.
pub fn is_too_old(max_time: i64, age: (u64, u32), now: u64) -> (result: bool)
    ensures
        result == too_old(max_time as int, age, now as int),
{
    let passed: i128 = (now as i128 - max_time as i128) * 1_000_000;
    let allowed: i128 = age.0 as i128 * 1_000_000_000 + age.1 as i128;
    passed > allowed
}

/// What was found of the mark that a block is to be deleted. One that cannot be understood says
/// nothing.
#[derive(Clone, Copy, Debug, PartialEq, Eq, Structural)]
pub enum DeletionMark {
    Missing,
    Unreadable,
    Found { version: i64, deletion_time: i64 },
}

/// A mark has a version that is not known.
#[derive(Clone, Copy, Debug, PartialEq, Eq, Structural)]
pub struct UnknownMarkVersion {
    pub version: i64,
}

/// A mark hides its block: more than a delay has passed since the deletion was asked for.
pub open spec fn hidden_by_mark(mark: DeletionMark, delay: int, now: int) -> Result<
    bool,
    UnknownMarkVersion,
> {
    match mark {
        DeletionMark::Missing => Ok(false),
        DeletionMark::Unreadable => Ok(false),
        DeletionMark::Found { version, deletion_time } => if version != 1 {
            Err(UnknownMarkVersion { version })
        } else {
            Ok(now - deletion_time > delay)
        },
    }
}

/// Whether a mark hides its block. All times are in seconds.
pub fn is_hidden_by_mark(mark: DeletionMark, delay: u64, now: u64) -> (result: Result<
    bool,
    UnknownMarkVersion,
>)
    ensures
        result == hidden_by_mark(mark, delay as int, now as int),
{
    match mark {
        DeletionMark::Missing => Ok(false),
        DeletionMark::Unreadable => Ok(false),
        DeletionMark::Found { version, deletion_time } => {
            if version != 1 {
                return Err(UnknownMarkVersion { version });
            }
            Ok((now as i128 - deletion_time as i128) > delay as i128)
        },
    }
}

/// When a block was uploaded, in milliseconds, as far as its metadata says so.
#[derive(Clone, Copy, Debug, PartialEq, Eq, Structural)]
pub enum UploadTime {
    Absent,
    Malformed,
    At(i64),
}

impl UploadTime {
    /// The time, if there is one.
    pub open spec fn time(&self) -> Option<int> {
        match self {
            UploadTime::At(time) => Some(*time as int),
            _ => None,
        }
    }
}

/// The time of upload that a time in seconds and nanoseconds stands for.
pub open spec fn upload_time(time: Option<(u64, u32)>) -> UploadTime {
    match time {
        Some((seconds, nanoseconds)) => {
            let milliseconds = seconds * 1000 + nanoseconds / 1_000_000;
            if milliseconds > i64::MAX {
                UploadTime::Malformed
            } else {
                UploadTime::At(milliseconds as i64)
            }
        },
        None => UploadTime::Malformed,
    }
}

/// Gives the time of upload that a time in seconds and nanoseconds stands for.
pub fn upload_time_at(time: Option<(u64, u32)>) -> (upload: UploadTime)
    ensures
        upload == upload_time(time),
{
    match time {
        Some((seconds, nanoseconds)) => {
            let milliseconds: u128 = seconds as u128 * 1000 + (nanoseconds / 1_000_000) as u128;
            if milliseconds > i64::MAX as u128 {
                UploadTime::Malformed
            } else {
                UploadTime::At(milliseconds as i64)
            }
        },
        None => UploadTime::Malformed,
    }
}

/// What `humantime::parse_rfc3339` reads on a machine of 64 bits: the seconds and nanoseconds since the
/// beginning of 1970, or nothing where it rejects the text.
pub uninterp spec fn rfc3339_time(text: Seq<char>) -> Option<(u64, u32)>;

/// Calls `humantime::parse_rfc3339`, which reads a time such as `2018-02-14T00:28:07Z` or rejects the
/// text. What it reads is a function of the text alone, is never before 1970, and goes by the name
/// [`rfc3339_time`].
#[verifier::external_body]
fn parse_rfc3339(text: &str) -> (time: Option<(u64, u32)>)
    ensures
        time == rfc3339_time(text@),
{
    match humantime::parse_rfc3339(text) {
        Ok(time) => time
            .duration_since(std::time::UNIX_EPOCH)
            .ok()
            .map(|elapsed| (elapsed.as_secs(), elapsed.subsec_nanos())),
        Err(_) => None,
    }
}

/// Reads the time of upload from the metadata of a block.
pub fn read_upload_time(text: &Option<String>) -> (upload: UploadTime)
    ensures
        upload == match text {
            Some(text) => upload_time(rfc3339_time(text@)),
            None => UploadTime::Absent,
        },
{
    match text {
        Some(text) => upload_time_at(parse_rfc3339(text.as_str())),
        None => UploadTime::Absent,
    }
}

/// What is known of a block beside its metadata: when it was uploaded, and the mark that it is to be
/// deleted.
#[derive(Clone, Copy, Debug, PartialEq, Eq, Structural)]
pub struct BlockState {
    pub upload_time: UploadTime,
    pub mark: DeletionMark,
}

/// Which blocks are shown at a time, which is given in milliseconds. The delay for fresh blocks is
/// in milliseconds, the one for marked blocks in seconds. Without a delay no block is too fresh,
/// and every marked block is hidden; without an age no block is too old. With a delay for fresh
/// blocks a block whose time of upload is malformed is hidden.
#[derive(Clone, Copy, Debug)]
pub struct Visibility {
    pub consistency_delay: Option<u64>,
    pub deletion_delay: Option<u64>,
    pub max_age: Option<(u64, u32)>,
    pub now: u64,
}

impl Visibility {
    /// A block is shown, as far as the block itself goes. The mark of a block that is too old or
    /// too fresh is not looked at.
    pub open spec fn shows(&self, meta: BlockMeta, state: BlockState) -> Result<
        bool,
        UnknownMarkVersion,
    > {
        let old = self.max_age matches Some(age) && too_old(
            meta.max_time as int,
            age,
            self.now as int,
        );
        let fresh = self.consistency_delay matches Some(delay) && (state.upload_time
            == UploadTime::Malformed || too_fresh(
            meta.thanos.source@,
            state.upload_time.time(),
            meta.ulid@,
            delay as int,
            self.now as int,
        ));
        if old || fresh {
            Ok(false)
        } else {
            match self.deletion_delay {
                None => Ok(state.mark == DeletionMark::Missing),
                Some(delay) => match hidden_by_mark(
                    state.mark,
                    delay as int,
                    self.now as int / 1000,
                ) {
                    Ok(hidden) => Ok(!hidden),
                    Err(error) => Err(error),
                },
            }
        }
    }

    /// The positions of the blocks that are shown as far as the blocks themselves go.
    pub open spec fn shown(&self, metas: Seq<BlockMeta>, states: Seq<BlockState>) -> Set<int> {
        Set::new(
            |p: int|
                0 <= p < metas.len() && self.shows(metas[p], states[p]) == Ok::<
                    bool,
                    UnknownMarkVersion,
                >(true),
        )
    }

    /// A block is shown: it is as far as the block itself goes, and no block of which this holds
    /// too supersedes it.
    pub open spec fn is_visible(
        &self,
        metas: Seq<BlockMeta>,
        states: Seq<BlockState>,
        position: int,
    ) -> bool {
        &&& self.shown(metas, states).contains(position)
        &&& !is_superseded_among(metas, self.shown(metas, states), position)
    }

    fn check(&self, meta: &BlockMeta, state: &BlockState) -> (result: Result<
        bool,
        UnknownMarkVersion,
    >)
        ensures
            result == self.shows(*meta, *state),
    {
        if let Some(age) = self.max_age {
            if is_too_old(meta.max_time, age, self.now) {
                return Ok(false);
            }
        }
        if let Some(delay) = self.consistency_delay {
            let upload_time: Option<i64> = match state.upload_time {
                UploadTime::At(time) => Some(time),
                UploadTime::Absent => None,
                UploadTime::Malformed => {
                    return Ok(false);
                },
            };
            if is_too_fresh(
                meta.thanos.source.as_str(),
                upload_time,
                meta.ulid.as_str(),
                delay,
                self.now,
            ) {
                return Ok(false);
            }
        }
        match self.deletion_delay {
            None => Ok(state.mark == DeletionMark::Missing),
            Some(delay) => {
                let hidden: bool = is_hidden_by_mark(state.mark, delay, self.now / 1000)?;
                Ok(!hidden)
            },
        }
    }

    fn check_all(&self, metas: &Vec<BlockMeta>, states: &Vec<BlockState>) -> (result: Result<
        Vec<bool>,
        UnknownMarkVersion,
    >)
        requires
            metas@.len() == states@.len(),
        ensures
            match result {
                Ok(shown) => {
                    &&& shown@.len() == metas@.len()
                    &&& forall|p: int|
                        0 <= p < metas@.len() ==> self.shows(metas@[p], states@[p]) == Ok::<
                            bool,
                            UnknownMarkVersion,
                        >(#[trigger] shown@[p])
                },
                Err(error) => exists|p: int|
                    {
                        &&& 0 <= p < metas@.len()
                        &&& #[trigger] self.shows(metas@[p], states@[p]) == Err::<
                            bool,
                            UnknownMarkVersion,
                        >(error)
                        &&& forall|q: int|
                            0 <= q < p ==> #[trigger] self.shows(metas@[q], states@[q]) is Ok
                    },
            },
    {
        let mut shown: Vec<bool> = Vec::new();
        let mut p: usize = 0;
        while p < metas.len()
            invariant
                p <= metas@.len() == states@.len(),
                shown@.len() == p,
                forall|q: int|
                    0 <= q < p ==> self.shows(metas@[q], states@[q]) == Ok::<
                        bool,
                        UnknownMarkVersion,
                    >(#[trigger] shown@[q]),
            decreases metas.len() - p,
        {
            match self.check(&metas[p], &states[p]) {
                Ok(visible) => {
                    shown.push(visible);
                },
                Err(error) => {
                    proof {
                        assert(self.shows(metas@[p as int], states@[p as int]) == Err::<
                            bool,
                            UnknownMarkVersion,
                        >(error));
                        assert forall|q: int| 0 <= q < p implies #[trigger] self.shows(
                            metas@[q],
                            states@[q],
                        ) is Ok by {
                            assert(self.shows(metas@[q], states@[q]) == Ok::<
                                bool,
                                UnknownMarkVersion,
                            >(shown@[q]));
                        }
                    }
                    return Err(error);
                },
            }
            p = p + 1;
        }
        Ok(shown)
    }
}

/// The positions of the blocks that are shown. The mark of the first block with an unknown version
/// is reported.
pub fn visible_blocks(
    metas: &Vec<BlockMeta>,
    states: &Vec<BlockState>,
    visibility: &Visibility,
) -> (result: Result<Vec<usize>, UnknownMarkVersion>)
    requires
        metas@.len() == states@.len(),
    ensures
        match result {
            Ok(positions) => {
                &&& forall|p: int|
                    0 <= p < metas@.len() ==> #[trigger] visibility.shows(
                        metas@[p],
                        states@[p],
                    ) is Ok
                &&& forall|i: int, j: int|
                    0 <= i < j < positions@.len() ==> #[trigger] positions@[i]
                        < #[trigger] positions@[j]
                &&& forall|p: usize|
                    #[trigger] positions@.contains(p) <==> visibility.is_visible(
                        metas@,
                        states@,
                        p as int,
                    )
            },
            Err(error) => exists|p: int|
                {
                    &&& 0 <= p < metas@.len()
                    &&& #[trigger] visibility.shows(metas@[p], states@[p]) == Err::<
                        bool,
                        UnknownMarkVersion,
                    >(error)
                    &&& forall|q: int|
                        0 <= q < p ==> #[trigger] visibility.shows(metas@[q], states@[q]) is Ok
                },
        },
{
    let shown = visibility.check_all(metas, states)?;
    let ghost among = visibility.shown(metas@, states@);
    assert forall|p: int| 0 <= p < metas@.len() implies #[trigger] visibility.shows(
        metas@[p],
        states@[p],
    ) is Ok && among.contains(p) == shown@[p] by {
        assert(visibility.shows(metas@[p], states@[p]) == Ok::<bool, UnknownMarkVersion>(shown@[p]));
    }
    assert forall|p: int| 0 <= p < metas@.len() implies among.contains(p) == #[trigger] shown@[p] by {
        assert(visibility.shows(metas@[p], states@[p]) is Ok);
    }
    let mut positions: Vec<usize> = Vec::new();
    let mut p: usize = 0;
    while p < metas.len()
        invariant
            p <= metas@.len() == states@.len(),
            shown@.len() == metas@.len(),
            among == visibility.shown(metas@, states@),
            forall|q: int| 0 <= q < metas@.len() ==> among.contains(q) == #[trigger] shown@[q],
            forall|i: int, j: int|
                0 <= i < j < positions@.len() ==> #[trigger] positions@[i] < #[trigger] positions@[j],
            forall|i: int| 0 <= i < positions@.len() ==> #[trigger] positions@[i] < p,
            forall|q: usize|
                #[trigger] positions@.contains(q) <==> q < p && visibility.is_visible(
                    metas@,
                    states@,
                    q as int,
                ),
        decreases metas.len() - p,
    {
        let visible: bool = shown[p] && !outdated(metas, &shown, p, Ghost(among));
        if visible {
            let ghost before = positions@;
            positions.push(p);
            assert forall|q: usize| #[trigger] positions@.contains(q) == (before.contains(q) || q
                == p) by {
                if before.contains(q) {
                    assert(positions@[before.index_of(q)] == q);
                }
                assert(positions@[before.len() as int] == p);
                if positions@.contains(q) && q != p {
                    let k = positions@.index_of(q);
                    assert(before[k] == q);
                }
            }
        }
        p = p + 1;
    }
    Ok(positions)
}

fn outdated(metas: &Vec<BlockMeta>, shown: &Vec<bool>, position: usize, among: Ghost<Set<int>>) -> (
    result: bool)
    requires
        position < metas@.len() == shown@.len(),
        forall|q: int| 0 <= q < metas@.len() ==> among@.contains(q) == #[trigger] shown@[q],
    ensures
        result == is_superseded_among(metas@, among@, position as int),
{
    let mut other: usize = 0;
    while other < metas.len()
        invariant
            position < metas@.len() == shown@.len(),
            other <= metas@.len(),
            forall|q: int| 0 <= q < metas@.len() ==> among@.contains(q) == #[trigger] shown@[q],
            forall|k: int|
                0 <= k < other ==> !(among@.contains(k) && supersedes(
                    #[trigger] metas@[k],
                    metas@[position as int],
                )),
        decreases metas.len() - other,
    {
        assert(among@.contains(other as int) == shown@[other as int]);
        if shown[other] && is_newer_version(&metas[other], &metas[position]) {
            assert(supersedes(metas@[other as int], metas@[position as int]));
            return true;
        }
        other = other + 1;
    }
    false
}

/// A hidden block supersedes nothing: a block stays where only hidden blocks supersede it.
pub proof fn law_hidden_blocks_supersede_nothing(
    visibility: Visibility,
    metas: Seq<BlockMeta>,
    states: Seq<BlockState>,
    position: int,
)
    requires
        visibility.shown(metas, states).contains(position),
        forall|other: int|
            0 <= other < metas.len() && supersedes(#[trigger] metas[other], metas[position])
                ==> !visibility.shown(metas, states).contains(other),
    ensures
        visibility.is_visible(metas, states, position),
{
}

/// Leaving superseded blocks out loses nothing: where a block is shown as far as the block itself
/// goes, a visible block of the same resolution was compacted from all that it was compacted from.
pub proof fn law_visible_blocks_cover_all(
    visibility: Visibility,
    metas: Seq<BlockMeta>,
    states: Seq<BlockState>,
    position: int,
)
    requires
        visibility.shown(metas, states).contains(position),
    ensures
        exists|other: int|
            {
                &&& #[trigger] visibility.is_visible(metas, states, other)
                &&& metas[other].thanos.resolution == metas[position].thanos.resolution
                &&& sources(metas[position]).subset_of(sources(metas[other]))
            },
{
    let shown = visibility.shown(metas, states);
    lemma_current_above(metas, shown, position);
    let other = choose|other: int| #[trigger] is_current_above(metas, shown, position, other);
    assert(visibility.is_visible(metas, states, other));
}

/// A block that is shown stays shown as time goes on, as far as its freshness goes. This does not
/// hold of a block without a time of upload whose name is from the future.
pub proof fn law_blocks_do_not_become_fresh(
    source: Seq<char>,
    upload_time: Option<int>,
    ulid: Seq<char>,
    delay: int,
    now: int,
    later: int,
)
    requires
        now <= later,
        upload_time is None ==> (ulid_milliseconds(ulid) matches Some(time) ==> time <= now),
        !too_fresh(source, upload_time, ulid, delay, now),
    ensures
        !too_fresh(source, upload_time, ulid, delay, later),
{
}

/// A block that a mark hides stays hidden as time goes on.
pub proof fn law_marked_blocks_stay_hidden(mark: DeletionMark, delay: int, now: int, later: int)
    requires
        now <= later,
        hidden_by_mark(mark, delay, now) == Ok::<bool, UnknownMarkVersion>(true),
    ensures
        hidden_by_mark(mark, delay, later) == Ok::<bool, UnknownMarkVersion>(true),
{
}

/// A block that is too old stays so as time goes on.
pub proof fn law_old_blocks_stay_hidden(max_time: int, age: (u64, u32), now: int, later: int)
    requires
        now <= later,
        too_old(max_time, age, now),
    ensures
        too_old(max_time, age, later),
{
}

/// The digits of a block's name, in the order of their values.
pub open spec fn name_digits() -> Seq<char> {
    "0123456789ABCDEFGHJKMNPQRSTVWXYZ"@
}

/// Each of the thirty-two digits stands for its place among them, and no other character is a digit.
pub proof fn law_digits_stand_for_their_place(i: int, c: char)
    requires
        0 <= i < 32,
    ensures
        name_digits().len() == 32,
        ulid_digit(name_digits()[i]) == Some(i),
        ulid_digit(c) matches Some(value) ==> 0 <= value < 32 && name_digits()[value] == c,
{
    reveal_strlit("0123456789ABCDEFGHJKMNPQRSTVWXYZ");
}

/// A number written in so many digits of a block's name.
pub open spec fn number_digits(value: int, count: nat) -> Seq<char>
    decreases count,
{
    if count == 0 {
        Seq::empty()
    } else {
        number_digits(value / 32, (count - 1) as nat).push(name_digits()[value % 32])
    }
}

#[verifier::spinoff_prover]
#[verifier::rlimit(60)]
proof fn lemma_number_digits(value: int, count: nat)
    requires
        0 <= value < pow32(count as int),
    ensures
        number_digits(value, count).len() == count,
        all_digits(number_digits(value, count)),
        digits_number(number_digits(value, count)) == value,
        count > 0 ==> ulid_digit(number_digits(value, count)[0]) == Some(
            value / pow32(count - 1),
        ),
    decreases count,
{
    if count > 0 {
        let rest = number_digits(value / 32, (count - 1) as nat);
        let text = number_digits(value, count);
        lemma_number_digits(value / 32, (count - 1) as nat);
        law_digits_stand_for_their_place(value % 32, '0');
        assert(text.drop_last() =~= rest);
        assert forall|i: int| 0 <= i < text.len() implies ulid_digit(#[trigger] text[i]) is Some by {
            if i < rest.len() {
                assert(text[i] == rest[i]);
            }
        }
        if count > 1 {
            assert(text[0] == rest[0]);
            assert(pow32(count - 1) == 32 * pow32(count - 2));
            lemma_pow32_positive(count - 2);
            vstd::arithmetic::div_mod::lemma_div_denominator(value, 32, pow32(count - 2));
            assert(value / 32 / pow32(count - 2) == value / pow32(count - 1));
            assert(ulid_digit(rest[0]) == Some(value / 32 / pow32(count - 2)));
        } else {
            assert(pow32(1) == 32 * pow32(0) && pow32(0) == 1);
            assert(text[0] == name_digits()[value % 32]);
            assert(value % 32 == value / pow32(0));
        }
    }
}

proof fn lemma_pow32_positive(n: int)
    ensures
        pow32(n) > 0,
    decreases n,
{
    if n > 0 {
        lemma_pow32_positive(n - 1);
    }
}

/// A name tells the time that it was made from: ten digits of a time in milliseconds of at most 48
/// bits, and sixteen digits of any kind.
#[verifier::spinoff_prover]
#[verifier::rlimit(60)]
pub proof fn law_names_tell_the_time_they_were_made(time: int, rest: Seq<char>)
    requires
        0 <= time < 0x1_0000_0000_0000,
        rest.len() == 16,
        all_digits(rest),
    ensures
        ulid_milliseconds(number_digits(time, 10) + rest) == Some(time),
{
    reveal_with_fuel(pow32, 11);
    assert(pow32(10) == 0x4_0000_0000_0000);
    assert(pow32(9) == 0x2000_0000_0000);
    lemma_number_digits(time, 10);
    let front = number_digits(time, 10);
    let name = front + rest;
    assert(name.take(10) =~= front);
    assert forall|i: int| 0 <= i < name.len() implies ulid_digit(#[trigger] name[i]) is Some by {
        if i < 10 {
            assert(name[i] == front[i]);
        } else {
            assert(name[i] == rest[i - 10]);
        }
    }
    let first = ulid_digit(name[0])->0;
    assert(first == time / 0x2000_0000_0000);
    assert(0 <= first < 8);
}

/// A block that is not the compactor's is shown from the time on at which the delay has passed since
/// its upload; without a time of upload, since it was named. A block of the compactor is shown at
/// once.
pub proof fn law_fresh_blocks_wait_for_the_delay(
    source: Seq<char>,
    upload: int,
    ulid: Seq<char>,
    delay: int,
    now: int,
)
    ensures
        source == "compactor"@ ==> !too_fresh(source, Some(upload), ulid, delay, now) && !too_fresh(
            source,
            None,
            ulid,
            delay,
            now,
        ),
        source != "compactor"@ ==> (too_fresh(source, Some(upload), ulid, delay, now) <==> now
            < upload + delay),
        source != "compactor"@ ==> match ulid_milliseconds(ulid) {
            Some(named) => too_fresh(source, None, ulid, delay, now) <==> named <= now < named
                + delay,
            None => !too_fresh(source, None, ulid, delay, now),
        },
{
}

/// A block is hidden by its mark as soon as more than the delay has passed since the deletion was
/// asked for, and not before. A mark that is not there or cannot be understood hides nothing, and one
/// of another version than 1 is reported.
pub proof fn law_marks_hide_after_the_delay(version: i64, deletion_time: i64, delay: int, now: int)
    ensures
        hidden_by_mark(DeletionMark::Missing, delay, now) == Ok::<bool, UnknownMarkVersion>(false),
        hidden_by_mark(DeletionMark::Unreadable, delay, now) == Ok::<bool, UnknownMarkVersion>(
            false,
        ),
        version == 1 ==> hidden_by_mark(
            DeletionMark::Found { version, deletion_time },
            delay,
            now,
        ) == Ok::<bool, UnknownMarkVersion>(deletion_time + delay < now),
        version != 1 ==> hidden_by_mark(
            DeletionMark::Found { version, deletion_time },
            delay,
            now,
        ) == Err::<bool, UnknownMarkVersion>(UnknownMarkVersion { version }),
{
}

/// A block is too old as soon as more than the age has passed since its largest time, and not before.
pub proof fn law_blocks_grow_too_old(max_time: int, seconds: u64, nanoseconds: u32, now: int)
    ensures
        too_old(max_time, (seconds, nanoseconds), now) <==> max_time * 1_000_000 + seconds
            * 1_000_000_000 + nanoseconds < now * 1_000_000,
{
}

/// A time of upload is held in whole milliseconds; one that was not understood, or that 64 bits with
/// a sign do not hold, is malformed.
pub proof fn law_upload_times_are_in_milliseconds(seconds: u64, nanoseconds: u32)
    ensures
        upload_time(None) == UploadTime::Malformed,
        match upload_time(Some((seconds, nanoseconds))) {
            UploadTime::At(time) => time * 1_000_000 <= seconds * 1_000_000_000 + nanoseconds < (
            time + 1) * 1_000_000,
            UploadTime::Malformed => seconds * 1_000_000_000 + nanoseconds >= (i64::MAX + 1)
                * 1_000_000,
            UploadTime::Absent => false,
        },
{
}

/// A block is shown exactly if it is not too old, not too fresh and not hidden by a mark. Where no
/// delay is set, freshness does not count and every mark hides; where no age is set, age does not
/// count.
pub proof fn law_shown_blocks_are_ripe_and_unmarked(
    visibility: Visibility,
    meta: BlockMeta,
    state: BlockState,
)
    ensures
        visibility.shows(meta, state) == Ok::<bool, UnknownMarkVersion>(true) <==> {
            &&& visibility.max_age matches Some(age) ==> !too_old(
                meta.max_time as int,
                age,
                visibility.now as int,
            )
            &&& visibility.consistency_delay matches Some(delay) ==> match state.upload_time {
                UploadTime::Malformed => false,
                UploadTime::At(time) => !too_fresh(
                    meta.thanos.source@,
                    Some(time as int),
                    meta.ulid@,
                    delay as int,
                    visibility.now as int,
                ),
                UploadTime::Absent => !too_fresh(
                    meta.thanos.source@,
                    None,
                    meta.ulid@,
                    delay as int,
                    visibility.now as int,
                ),
            }
            &&& match visibility.deletion_delay {
                Some(delay) => hidden_by_mark(
                    state.mark,
                    delay as int,
                    visibility.now as int / 1000,
                ) == Ok::<bool, UnknownMarkVersion>(false),
                None => state.mark == DeletionMark::Missing,
            }
        },
{
}

/// A block is visible exactly if it is shown and no other block that is shown has the same resolution
/// and was made from all of its sources and from more.
pub proof fn law_visible_blocks_are_not_replaced(
    visibility: Visibility,
    metas: Seq<BlockMeta>,
    states: Seq<BlockState>,
    position: int,
)
    requires
        0 <= position < metas.len(),
    ensures
        visibility.is_visible(metas, states, position) <==> {
            &&& visibility.shows(metas[position], states[position]) == Ok::<
                bool,
                UnknownMarkVersion,
            >(true)
            &&& !exists|other: int|
                {
                    &&& 0 <= other < metas.len()
                    &&& visibility.shows(#[trigger] metas[other], states[other]) == Ok::<
                        bool,
                        UnknownMarkVersion,
                    >(true)
                    &&& metas[other].thanos.resolution == metas[position].thanos.resolution
                    &&& sources(metas[position]).len() > 0
                    &&& sources(metas[position]).subset_of(sources(metas[other]))
                    &&& sources(metas[position]) != sources(metas[other])
                }
        },
{
    let shown = visibility.shown(metas, states);
    if is_superseded_among(metas, shown, position) {
        let other = choose|other: int|
            0 <= other < metas.len() && shown.contains(other) && supersedes(
                #[trigger] metas[other],
                metas[position],
            );
        assert(metas[other].thanos.resolution == metas[position].thanos.resolution);
    }
    if exists|other: int|
        {
            &&& 0 <= other < metas.len()
            &&& visibility.shows(#[trigger] metas[other], states[other]) == Ok::<
                bool,
                UnknownMarkVersion,
            >(true)
            &&& metas[other].thanos.resolution == metas[position].thanos.resolution
            &&& sources(metas[position]).len() > 0
            &&& sources(metas[position]).subset_of(sources(metas[other]))
            &&& sources(metas[position]) != sources(metas[other])
        } {
        let other = choose|other: int|
            {
                &&& 0 <= other < metas.len()
                &&& visibility.shows(#[trigger] metas[other], states[other]) == Ok::<
                    bool,
                    UnknownMarkVersion,
                >(true)
                &&& metas[other].thanos.resolution == metas[position].thanos.resolution
                &&& sources(metas[position]).len() > 0
                &&& sources(metas[position]).subset_of(sources(metas[other]))
                &&& sources(metas[position]) != sources(metas[other])
            };
        assert(shown.contains(other) && supersedes(metas[other], metas[position]));
    }
}

} // verus!
