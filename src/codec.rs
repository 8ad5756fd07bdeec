use vstd::prelude::*;

use crate::model::{Error, Timestamp};

verus! {

/// The earliest instant with a text form here: 0001-01-01T00:00:00Z.
pub const MIN_TIMESTAMP: i64 = -62135596800000;

/// The latest instant with a text form here: 9999-12-31T23:59:59.999Z.
pub const MAX_TIMESTAMP: i64 = 253402300799999;

/// The RFC 3339 text that chrono writes for the instant `ms` milliseconds
/// after the epoch.
pub uninterp spec fn rfc3339_text(ms: int) -> Seq<char>;

/// The instant, in milliseconds after the epoch, that chrono reads from the
/// text `s`, if it reads one.
pub uninterp spec fn rfc3339_instant(s: Seq<char>) -> Option<int>;

/// Relies on chrono's `DateTime::<Utc>::from_timestamp_millis`, which
/// accepts every instant between the two bounds above, and on `to_rfc3339`,
/// which writes its text.
#[verifier::external_body]
pub fn chrono_to_sql(t: Timestamp) -> (r: String)
    requires
        MIN_TIMESTAMP <= t <= MAX_TIMESTAMP,
    ensures
        r@ == rfc3339_text(t as int),
{
    chrono::DateTime::<chrono::Utc>::from_timestamp_millis(t).unwrap_or_default().to_rfc3339()
}

/// Relies on chrono's `FromStr` for `DateTime<Utc>` (RFC 3339 text with any
/// offset) and on `timestamp_millis`, which gives the instant it read.
#[verifier::external_body]
fn parse_rfc3339(s: &str) -> (r: Option<i64>)
    ensures
        match r {
            Some(m) => rfc3339_instant(s@) == Some(m as int),
            None => rfc3339_instant(s@) is None,
        },
{
    match s.parse::<chrono::DateTime<chrono::Utc>>() {
        Ok(d) => Some(d.timestamp_millis()),
        Err(_) => None,
    }
}

/// Relies on chrono's `Utc::now`: the current time, read from the system
/// clock, which chrono never reports before the epoch.
#[verifier::external_body]
pub(crate) fn clock_now() -> (r: Timestamp)
    ensures
        0 <= r,
{
    chrono::Utc::now().timestamp_millis()
}

/// The time asked for, or the current time when none is given.
pub(crate) fn time_or_now(when: Option<Timestamp>) -> (t: Timestamp)
    ensures
        match when {
            Some(w) => t == w,
            None => 0 <= t,
        },
{
    match when {
        Some(w) => w,
        None => clock_now(),
    }
}

/// Reads a stored timestamp: the instant of its RFC 3339 text, which must
/// lie between the two bounds above.
pub fn sql_to_chrono(s: String) -> (r: Result<Timestamp, Error>)
    ensures
        match rfc3339_instant(s@) {
            Some(m) => if MIN_TIMESTAMP <= m <= MAX_TIMESTAMP {
                r == Ok::<Timestamp, Error>(m as Timestamp)
            } else {
                r == Err::<Timestamp, Error>(Error::ParseError)
            },
            None => r == Err::<Timestamp, Error>(Error::ParseError),
        },
{
    match parse_rfc3339(s.as_str()) {
        Some(m) => {
            if MIN_TIMESTAMP <= m && m <= MAX_TIMESTAMP {
                Ok(m)
            } else {
                Err(Error::ParseError)
            }
        },
        None => Err(Error::ParseError),
    }
}

/// The texts of a list of strings.
pub open spec fn texts(v: Seq<String>) -> Seq<Seq<char>> {
    v.map_values(|s: String| s@)
}

/// The stored form of a tag list: the tags joined with line breaks.
pub open spec fn joined_tags(tags: Seq<Seq<char>>) -> Seq<char>
    decreases tags.len(),
{
    if tags.len() == 0 {
        Seq::empty()
    } else if tags.len() == 1 {
        tags[0]
    } else {
        joined_tags(tags.drop_last()) + seq!['\n'] + tags.last()
    }
}

/// The pieces of `s` between line breaks (one piece when there is none).
pub open spec fn split_lines(s: Seq<char>) -> Seq<Seq<char>>
    decreases s.len(),
{
    if s.len() == 0 {
        seq![Seq::empty()]
    } else {
        let init = split_lines(s.drop_last());
        if s.last() == '\n' {
            init.push(Seq::empty())
        } else {
            init.update(init.len() - 1, init.last().push(s.last()))
        }
    }
}

/// The tag list read from its stored form: none from an empty text.
pub open spec fn decoded_tags(s: Seq<char>) -> Seq<Seq<char>> {
    if s.len() == 0 {
        Seq::empty()
    } else {
        split_lines(s)
    }
}

proof fn lemma_split_lines_len(s: Seq<char>)
    ensures
        split_lines(s).len() >= 1,
    decreases s.len(),
{
    if s.len() > 0 {
        lemma_split_lines_len(s.drop_last());
    }
}

proof fn lemma_split_after_break(a: Seq<char>, b: Seq<char>)
    requires
        forall|c: int| 0 <= c < b.len() ==> b[c] != '\n',
    ensures
        split_lines(a + seq!['\n'] + b) == split_lines(a).push(b),
    decreases b.len(),
{
    let s = a + seq!['\n'] + b;
    if b.len() == 0 {
        assert(s.drop_last() =~= a);
        assert(s =~= a + seq!['\n']);
        assert(b =~= Seq::<char>::empty());
    } else {
        let b0 = b.drop_last();
        lemma_split_after_break(a, b0);
        assert(s.drop_last() =~= a + seq!['\n'] + b0);
        assert(s.last() == b.last());
        assert(b0.push(b.last()) =~= b);
        assert(split_lines(a).push(b0).update(split_lines(a).len() as int, b0.push(b.last()))
            =~= split_lines(a).push(b));
    }
}

proof fn lemma_split_single(b: Seq<char>)
    requires
        forall|c: int| 0 <= c < b.len() ==> b[c] != '\n',
    ensures
        split_lines(b) == seq![b],
    decreases b.len(),
{
    if b.len() == 0 {
        assert(b =~= Seq::<char>::empty());
    } else {
        let b0 = b.drop_last();
        lemma_split_single(b0);
        assert(b0.push(b.last()) =~= b);
        assert(seq![b0].update(0, b0.push(b.last())) =~= seq![b]);
    }
}

proof fn lemma_split_joined(tags: Seq<Seq<char>>)
    requires
        tags.len() >= 1,
        forall|k: int, c: int| 0 <= k < tags.len() && 0 <= c < tags[k].len() ==> (#[trigger] tags[k][c]) != '\n',
    ensures
        split_lines(joined_tags(tags)) == tags,
    decreases tags.len(),
{
    if tags.len() == 1 {
        assert forall|c: int| 0 <= c < tags[0].len() implies #[trigger] tags[0][c] != '\n' by {}
        lemma_split_single(tags[0]);
        assert(seq![tags[0]] =~= tags);
    } else {
        let init = tags.drop_last();
        assert forall|k: int, c: int| 0 <= k < init.len() && 0 <= c < init[k].len() implies (
        #[trigger] init[k][c]) != '\n' by {
            assert(init[k] == tags[k]);
        }
        lemma_split_joined(init);
        assert forall|c: int| 0 <= c < tags.last().len() implies #[trigger] tags.last()[c] != '\n' by {
            assert(tags.last() == tags[tags.len() - 1]);
        }
        lemma_split_after_break(joined_tags(init), tags.last());
        assert(init.push(tags.last()) =~= tags);
    }
}

/// Reading back the stored form of a tag list gives the list, provided no
/// tag holds a line break and the list is not a single empty tag (whose
/// stored form is the same as that of no tags).
pub proof fn lemma_tags_round_trip(tags: Seq<Seq<char>>)
    requires
        forall|k: int, c: int| 0 <= k < tags.len() && 0 <= c < tags[k].len() ==> (#[trigger] tags[k][c]) != '\n',
        !(tags.len() == 1 && tags[0].len() == 0),
    ensures
        decoded_tags(joined_tags(tags)) == tags,
{
    if tags.len() == 0 {
        assert(decoded_tags(joined_tags(tags)) =~= tags);
    } else {
        lemma_split_joined(tags);
        if tags.len() >= 2 {
            assert(joined_tags(tags).len() == joined_tags(tags.drop_last()).len() + 1 + tags.last().len());
        }
    }
}

/// The stored form of a tag list.
pub fn encode_tags(tags: &Vec<String>) -> (r: String)
    ensures
        r@ == joined_tags(texts(tags@)),
{
    let mut out = String::new();
    let mut i: usize = 0;
    while i < tags.len()
        invariant
            i <= tags.len(),
            out@ == joined_tags(texts(tags@).subrange(0, i as int)),
        decreases tags.len() - i,
    {
        let ghost pre = texts(tags@).subrange(0, i + 1);
        assert(pre.drop_last() =~= texts(tags@).subrange(0, i as int));
        assert(pre.last() == tags@[i as int]@);
        if i > 0 {
            proof {
                reveal_strlit("\n");
            }
            out.append("\n");
        } else {
            assert(pre[0] == tags@[0]@);
        }
        out.append(tags[i].as_str());
        assert(out@ =~= joined_tags(pre));
        i += 1;
    }
    assert(texts(tags@).subrange(0, tags.len() as int) =~= texts(tags@));
    out
}

/// Reads a tag list from its stored form.
pub fn decode_tags(s: &String) -> (r: Vec<String>)
    ensures
        texts(r@) == decoded_tags(s@),
{
    let st = s.as_str();
    let n = st.unicode_len();
    let mut out: Vec<String> = Vec::new();
    if n == 0 {
        assert(texts(out@) =~= decoded_tags(s@));
        return out;
    }
    let mut start: usize = 0;
    let mut i: usize = 0;
    assert(s@.subrange(0, 0) =~= Seq::<char>::empty());
    assert(texts(out@).push(s@.subrange(0, 0)) =~= split_lines(s@.subrange(0, 0)));
    while i < n
        invariant
            n == s@.len(),
            st@ == s@,
            start <= i <= n,
            texts(out@).push(s@.subrange(start as int, i as int)) == split_lines(s@.subrange(0, i as int)),
        decreases n - i,
    {
        let ghost pre = s@.subrange(0, i + 1);
        assert(pre.drop_last() =~= s@.subrange(0, i as int));
        proof {
            lemma_split_lines_len(s@.subrange(0, i as int));
        }
        let c = st.get_char(i);
        if c == '\n' {
            let piece = String::from_str(st.substring_char(start, i));
            let ghost old_out = out@;
            let ghost old_start = start;
            out.push(piece);
            start = i + 1;
            assert(texts(out@) =~= texts(old_out).push(s@.subrange(old_start as int, i as int)));
            assert(s@.subrange(start as int, i + 1) =~= Seq::<char>::empty());
            assert(texts(out@).push(s@.subrange(start as int, i + 1)) =~= split_lines(pre));
        } else {
            assert(s@.subrange(start as int, i + 1) =~= s@.subrange(start as int, i as int).push(c));
            assert(texts(out@).push(s@.subrange(start as int, i + 1)) =~= split_lines(pre));
        }
        i += 1;
    }
    let last = String::from_str(st.substring_char(start, n));
    out.push(last);
    assert(s@.subrange(0, n as int) =~= s@);
    assert(texts(out@) =~= split_lines(s@));
    out
}

} // verus!
