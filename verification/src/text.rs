use vstd::prelude::*;

verus! {

/// The character sequences held by a sequence of strings.
pub open spec fn seq_views(v: Seq<String>) -> Seq<Seq<char>> {
    Seq::new(v.len(), |i: int| v[i]@)
}

/// Character-by-character string equality.
pub fn str_eq(a: &str, b: &str) -> (r: bool)
    ensures
        r == (a@ == b@),
{
    let na = a.unicode_len();
    let nb = b.unicode_len();
    if na != nb {
        return false;
    }
    let mut i: usize = 0;
    while i < na
        invariant
            na == a@.len(),
            nb == b@.len(),
            na == nb,
            i <= na,
            forall|j: int| 0 <= j < i ==> a@[j] == b@[j],
        decreases na - i,
    {
        if a.get_char(i) != b.get_char(i) {
            return false;
        }
        i = i + 1;
    }
    proof {
        assert(a@ =~= b@);
    }
    true
}

// ---------------------------------------------------------------------------
// Splitting on a separator character
// ---------------------------------------------------------------------------

/// The segments of `s` between occurrences of `sep`, in order, as
/// `str::split(sep)` yields them: an empty input has one empty segment,
/// every separator closes the current segment and opens a new empty one,
/// and any other character grows the current (last) segment.
pub open spec fn spec_split(s: Seq<char>, sep: char) -> Seq<Seq<char>>
    decreases s.len(),
{
    if s.len() == 0 {
        seq![Seq::<char>::empty()]
    } else if s.last() == sep {
        spec_split(s.drop_last(), sep).push(Seq::<char>::empty())
    } else {
        let parts = spec_split(s.drop_last(), sep);
        parts.drop_last().push(parts.last().push(s.last()))
    }
}

pub proof fn lemma_split_len(s: Seq<char>, sep: char)
    ensures
        spec_split(s, sep).len() >= 1,
    decreases s.len(),
{
    if s.len() > 0 {
        lemma_split_len(s.drop_last(), sep);
    }
}

/// Relies on String::push: appends exactly one character at the end.
#[verifier::external_body]
pub(crate) fn push_char(s: &mut String, c: char)
    ensures
        final(s)@ == old(s)@.push(c),
{
    s.push(c);
}

/// Splits `s` at every occurrence of `sep`, as `str::split(sep)` does.
pub fn split_char(s: &str, sep: char) -> (parts: Vec<String>)
    ensures
        seq_views(parts@) == spec_split(s@, sep),
{
    let n = s.unicode_len();
    let mut parts: Vec<String> = Vec::new();
    let mut cur = String::new();
    let mut i: usize = 0;
    while i < n
        invariant
            n == s@.len(),
            i <= n,
            seq_views(parts@).push(cur@) == spec_split(s@.take(i as int), sep),
        decreases n - i,
    {
        let c = s.get_char(i);
        proof {
            lemma_split_len(s@.take(i as int), sep);
            assert(s@.take(i + 1 as int).drop_last() =~= s@.take(i as int));
            assert(s@.take(i + 1 as int).last() == c);
        }
        let ghost old_parts = parts@;
        let ghost old_cur = cur@;
        if c == sep {
            parts.push(cur);
            cur = String::new();
            proof {
                assert(seq_views(parts@) =~~= seq_views(old_parts).push(old_cur));
                assert(seq_views(parts@).push(cur@) =~~= spec_split(
                    s@.take(i + 1 as int),
                    sep,
                ));
            }
        } else {
            push_char(&mut cur, c);
            proof {
                let prev = spec_split(s@.take(i as int), sep);
                assert(prev.drop_last() =~~= seq_views(old_parts));
                assert(prev.last() == old_cur);
                assert(seq_views(parts@).push(cur@) =~~= spec_split(
                    s@.take(i + 1 as int),
                    sep,
                ));
            }
        }
        i = i + 1;
    }
    proof {
        assert(s@.take(n as int) =~= s@);
    }
    parts.push(cur);
    proof {
        assert(seq_views(parts@) =~~= spec_split(s@, sep));
    }
    parts
}

// ---------------------------------------------------------------------------
// Splitting into lines
// ---------------------------------------------------------------------------

/// Removes one trailing carriage return, if present.
pub open spec fn spec_strip_cr(l: Seq<char>) -> Seq<char> {
    if l.len() > 0 && l.last() == '\r' {
        l.drop_last()
    } else {
        l
    }
}

/// `spec_strip_cr` applied to every element.
pub open spec fn strip_cr_all(v: Seq<Seq<char>>) -> Seq<Seq<char>> {
    Seq::new(v.len(), |i: int| spec_strip_cr(v[i]))
}

/// The lines of `s`, as `str::lines` yields them: segments between newlines,
/// without a final empty segment, and with one '\r' stripped from the end of
/// every segment that a newline terminated.
pub open spec fn spec_lines(s: Seq<char>) -> Seq<Seq<char>> {
    let raw = spec_split(s, '\n');
    if raw.last().len() == 0 {
        strip_cr_all(raw.drop_last())
    } else {
        strip_cr_all(raw.drop_last()).push(raw.last())
    }
}

fn strip_cr(l: &String) -> (r: String)
    ensures
        r@ == spec_strip_cr(l@),
{
    let n = l.as_str().unicode_len();
    if n > 0 && l.as_str().get_char(n - 1) == '\r' {
        let r = l.as_str().substring_char(0, n - 1).to_owned();
        proof {
            assert(l@.subrange(0, n - 1 as int) =~= l@.drop_last());
        }
        r
    } else {
        l.clone()
    }
}

/// Splits `s` into its lines, as `str::lines` does.
pub fn split_lines(s: &str) -> (lines: Vec<String>)
    ensures
        seq_views(lines@) == spec_lines(s@),
{
    let mut raw = split_char(s, '\n');
    proof {
        lemma_split_len(s@, '\n');
    }
    let last = raw.pop().unwrap();
    let ghost raw_views = spec_split(s@, '\n');
    let mut out: Vec<String> = Vec::new();
    let mut i: usize = 0;
    while i < raw.len()
        invariant
            seq_views(raw@) == raw_views.drop_last(),
            raw_views == spec_split(s@, '\n'),
            raw_views.len() >= 1,
            last@ == raw_views.last(),
            i <= raw.len(),
            seq_views(out@) == strip_cr_all(raw_views.drop_last().take(i as int)),
        decreases raw.len() - i,
    {
        proof {
            assert(seq_views(raw@)[i as int] == raw@[i as int]@);
        }
        let stripped = strip_cr(&raw[i]);
        let ghost old_out = out@;
        out.push(stripped);
        proof {
            let dl = raw_views.drop_last();
            assert(i < dl.len());
            assert(seq_views(old_out).len() == old_out.len());
            assert(strip_cr_all(dl.take(i as int)).len() == i);
            assert(old_out.len() == i);
            assert(out@ == old_out.push(stripped));
            assert forall|j: int| 0 <= j < i + 1 implies seq_views(out@)[j] == strip_cr_all(
                dl.take(i + 1 as int),
            )[j] by {
                assert(dl.take(i + 1 as int)[j] == dl[j]);
                assert(strip_cr_all(dl.take(i + 1 as int))[j] == spec_strip_cr(dl[j]));
                if j < i {
                    assert(out@[j] == old_out[j]);
                    assert(seq_views(out@)[j] == old_out[j]@);
                    assert(seq_views(old_out)[j] == old_out[j]@);
                    assert(dl.take(i as int)[j] == dl[j]);
                    assert(seq_views(old_out)[j] == strip_cr_all(dl.take(i as int))[j]);
                } else {
                    assert(out@[j] == stripped);
                    assert(seq_views(out@)[j] == stripped@);
                    assert(stripped@ == spec_strip_cr(dl[j]));
                }
            }
            assert(seq_views(out@).len() == strip_cr_all(dl.take(i + 1 as int)).len());
            assert(seq_views(out@) =~~= strip_cr_all(dl.take(i + 1 as int)));
        }
        i = i + 1;
    }
    proof {
        assert(raw_views.drop_last().take(raw@.len() as int) =~= raw_views.drop_last());
    }
    if last.as_str().unicode_len() > 0 {
        out.push(last);
        proof {
            assert(seq_views(out@) =~~= spec_lines(s@));
        }
    } else {
        proof {
            assert(seq_views(out@) =~~= spec_lines(s@));
        }
    }
    out
}

} // verus!
