//! Character-level text utilities shared by the parser, the decoder and the
//! description generator: whitespace trimming, first-occurrence search, line
//! splitting and quote stripping, each with an exact specification over
//! `Seq<char>`.

use vstd::prelude::*;

verus! {

/// The whitespace characters recognised by this library (ASCII whitespace).
pub open spec fn is_space(c: char) -> bool {
    c == ' ' || c == '\t' || c == '\r' || c == '\n'
}

/// `s` with trailing whitespace removed.
pub open spec fn trim_end_s(s: Seq<char>) -> Seq<char>
    decreases s.len(),
{
    if s.len() > 0 && is_space(s.last()) {
        trim_end_s(s.drop_last())
    } else {
        s
    }
}

/// `s` with leading whitespace removed.
pub open spec fn trim_start_s(s: Seq<char>) -> Seq<char>
    decreases s.len(),
{
    if s.len() > 0 && is_space(s.first()) {
        trim_start_s(s.drop_first())
    } else {
        s
    }
}

/// `s` with both leading and trailing whitespace removed.
pub open spec fn trim_s(s: Seq<char>) -> Seq<char> {
    trim_start_s(trim_end_s(s))
}

/// Index of the first occurrence of `c` in `s`, or `-1` if `c` does not occur.
pub open spec fn first_index_of(s: Seq<char>, c: char) -> int
    decreases s.len(),
{
    if s.len() == 0 {
        -1
    } else if s.first() == c {
        0
    } else {
        let r = first_index_of(s.drop_first(), c);
        if r < 0 {
            -1
        } else {
            r + 1
        }
    }
}

pub proof fn lemma_first_index_of(s: Seq<char>, c: char)
    ensures
        first_index_of(s, c) < 0 ==> forall|i: int| 0 <= i < s.len() ==> s[i] != c,
        first_index_of(s, c) >= 0 ==> {
            &&& first_index_of(s, c) < s.len()
            &&& s[first_index_of(s, c)] == c
            &&& forall|i: int| 0 <= i < first_index_of(s, c) ==> s[i] != c
        },
    decreases s.len(),
{
    if s.len() > 0 && s.first() != c {
        lemma_first_index_of(s.drop_first(), c);
        let r = first_index_of(s.drop_first(), c);
        if r < 0 {
            assert forall|i: int| 0 <= i < s.len() implies s[i] != c by {
                if i > 0 {
                    assert(s.drop_first()[i - 1] != c);
                }
            }
        } else {
            assert(s[r + 1] == s.drop_first()[r]);
            assert forall|i: int| 0 <= i < r + 1 implies s[i] != c by {
                if i > 0 {
                    assert(s.drop_first()[i - 1] != c);
                }
            }
        }
    }
}

pub proof fn lemma_first_index_at(s: Seq<char>, c: char, i: int)
    requires
        0 <= i < s.len(),
        s[i] == c,
        forall|j: int| 0 <= j < i ==> s[j] != c,
    ensures
        first_index_of(s, c) == i,
    decreases s.len(),
{
    if i > 0 {
        lemma_first_index_at(s.drop_first(), c, i - 1);
    }
}

pub proof fn lemma_first_index_none(s: Seq<char>, c: char)
    requires
        forall|j: int| 0 <= j < s.len() ==> s[j] != c,
    ensures
        first_index_of(s, c) < 0,
    decreases s.len(),
{
    if s.len() > 0 {
        lemma_first_index_none(s.drop_first(), c);
    }
}

/// `s` split at every newline character; a text of `n` newlines yields
/// `n + 1` lines, none of which contains a newline.
pub open spec fn split_lines_s(s: Seq<char>) -> Seq<Seq<char>>
    decreases s.len(),
{
    let i = first_index_of(s, '\n');
    if i < 0 || i >= s.len() {
        seq![s]
    } else {
        seq![s.subrange(0, i)] + split_lines_s(s.subrange(i + 1, s.len() as int))
    }
}

/// `s` with every leading and trailing double-quote character removed.
pub open spec fn strip_quotes_end_s(s: Seq<char>) -> Seq<char>
    decreases s.len(),
{
    if s.len() > 0 && s.last() == '"' {
        strip_quotes_end_s(s.drop_last())
    } else {
        s
    }
}

pub open spec fn strip_quotes_start_s(s: Seq<char>) -> Seq<char>
    decreases s.len(),
{
    if s.len() > 0 && s.first() == '"' {
        strip_quotes_start_s(s.drop_first())
    } else {
        s
    }
}

pub open spec fn strip_quotes_s(s: Seq<char>) -> Seq<char> {
    strip_quotes_start_s(strip_quotes_end_s(s))
}

/// `s` with every trailing comma removed.
pub open spec fn strip_commas_end_s(s: Seq<char>) -> Seq<char>
    decreases s.len(),
{
    if s.len() > 0 && s.last() == ',' {
        strip_commas_end_s(s.drop_last())
    } else {
        s
    }
}

/// Trimming the end keeps a prefix: every character of the result stands at
/// the same position in `s`.
pub proof fn lemma_trim_end_prefix(s: Seq<char>)
    ensures
        trim_end_s(s).len() <= s.len(),
        forall|i: int| 0 <= i < trim_end_s(s).len() ==> trim_end_s(s)[i] == s[i],
    decreases s.len(),
{
    if s.len() > 0 && is_space(s.last()) {
        lemma_trim_end_prefix(s.drop_last());
        assert forall|i: int| 0 <= i < trim_end_s(s).len() implies trim_end_s(s)[i] == s[i] by {
            assert(trim_end_s(s) == trim_end_s(s.drop_last()));
            assert(trim_end_s(s.drop_last())[i] == s.drop_last()[i]);
        }
    }
}

/// Trimming the start keeps a suffix: the result's characters stand at the
/// end of `s`.
pub proof fn lemma_trim_start_suffix(s: Seq<char>)
    ensures
        trim_start_s(s).len() <= s.len(),
        forall|i: int| 0 <= i < trim_start_s(s).len()
            ==> trim_start_s(s)[i] == s[s.len() - trim_start_s(s).len() + i],
    decreases s.len(),
{
    if s.len() > 0 && is_space(s.first()) {
        lemma_trim_start_suffix(s.drop_first());
        let r = trim_start_s(s);
        assert forall|i: int| 0 <= i < r.len() implies r[i] == s[s.len() - r.len() + i] by {
            assert(r == trim_start_s(s.drop_first()));
            assert(r[i] == s.drop_first()[s.drop_first().len() - r.len() + i]);
            assert(s.drop_first()[s.drop_first().len() - r.len() + i]
                == s[s.len() - r.len() + i]);
        }
    }
}

/// Stripping the quotes off a value wrapped in single quotes on each side
/// gives back the wrapped text, provided it holds no quote of its own.
pub proof fn lemma_strip_quotes_wrapped(inner: Seq<char>)
    requires
        forall|i: int| 0 <= i < inner.len() ==> inner[i] != '"',
    ensures
        strip_quotes_s(seq!['"'] + inner + seq!['"']) == inner,
{
    let v = seq!['"'] + inner + seq!['"'];
    let w = seq!['"'] + inner;
    assert(v.len() == inner.len() + 2);
    assert(v.last() == '"');
    assert(v.drop_last() =~= w);
    assert(strip_quotes_end_s(v) == strip_quotes_end_s(w));
    if inner.len() == 0 {
        assert(w =~= seq!['"']);
        assert(w.last() == '"');
        assert(w.drop_last() =~= Seq::<char>::empty());
        assert(strip_quotes_end_s(w) == strip_quotes_end_s(Seq::<char>::empty()));
        assert(strip_quotes_end_s(Seq::<char>::empty()) == Seq::<char>::empty());
        assert(strip_quotes_start_s(Seq::<char>::empty()) == Seq::<char>::empty());
        assert(strip_quotes_s(v) =~= inner);
    } else {
        assert(w.last() == inner.last());
        assert(inner.last() != '"');
        assert(strip_quotes_end_s(w) == w);
        assert(w.first() == '"');
        assert(w.drop_first() =~= inner);
        assert(strip_quotes_start_s(w) == strip_quotes_start_s(inner));
        assert(inner.first() != '"');
        assert(strip_quotes_start_s(inner) == inner);
    }
}

/// Relies on `String::push`: appends the single character `c` at the end of
/// the string.
#[verifier::external_body]
pub fn push_char(s: &mut String, c: char)
    ensures
        final(s)@ == old(s)@.push(c),
{
    s.push(c);
}

/// Whether two strings hold the same characters.
pub fn str_eq(a: &str, b: &str) -> (r: bool)
    ensures
        r == (a@ == b@),
{
    let na = a.unicode_len();
    let nb = b.unicode_len();
    if na != nb {
        return false;
    }
    let mut i: usize = 0;
    while i < na
        invariant
            na == a@.len(),
            na == b@.len(),
            i <= na,
            forall|j: int| 0 <= j < i ==> a@[j] == b@[j],
        decreases na - i,
    {
        if a.get_char(i) != b.get_char(i) {
            return false;
        }
        i = i + 1;
    }
    proof {
        assert(a@ =~= b@);
    }
    true
}

fn is_space_char(c: char) -> (r: bool)
    ensures
        r == is_space(c),
{
    c == ' ' || c == '\t' || c == '\r' || c == '\n'
}

/// Executable counterpart of [`trim_end_s`].
pub fn trim_end_str(s: &str) -> (r: &str)
    ensures
        r@ == trim_end_s(s@),
{
    let mut j: usize = s.unicode_len();
    proof {
        assert(s@.subrange(0, j as int) =~= s@);
    }
    while j > 0 && is_space_char(s.get_char(j - 1))
        invariant
            j <= s@.len(),
            trim_end_s(s@) == trim_end_s(s@.subrange(0, j as int)),
        decreases j,
    {
        proof {
            let pre = s@.subrange(0, j as int);
            assert(pre.drop_last() =~= s@.subrange(0, j - 1));
        }
        j = j - 1;
    }
    proof {
        assert(s@.subrange(0, s@.len() as int) =~= s@);
        let pre = s@.subrange(0, j as int);
        if j > 0 {
            assert(!is_space(pre.last()));
        }
        assert(trim_end_s(pre) == pre);
    }
    s.substring_char(0, j)
}

/// Executable counterpart of [`trim_start_s`].
pub fn trim_start_str(s: &str) -> (r: &str)
    ensures
        r@ == trim_start_s(s@),
{
    let n: usize = s.unicode_len();
    let mut i: usize = 0;
    proof {
        assert(s@.subrange(0, n as int) =~= s@);
    }
    while i < n && is_space_char(s.get_char(i))
        invariant
            n == s@.len(),
            i <= n,
            trim_start_s(s@) == trim_start_s(s@.subrange(i as int, n as int)),
        decreases n - i,
    {
        proof {
            let suf = s@.subrange(i as int, n as int);
            assert(suf.drop_first() =~= s@.subrange(i + 1, n as int));
        }
        i = i + 1;
    }
    proof {
        assert(s@.subrange(0, s@.len() as int) =~= s@);
        let suf = s@.subrange(i as int, n as int);
        assert(trim_start_s(suf) == suf);
    }
    s.substring_char(i, n)
}

/// Executable counterpart of [`trim_s`].
pub fn trim_str(s: &str) -> (r: &str)
    ensures
        r@ == trim_s(s@),
{
    trim_start_str(trim_end_str(s))
}

/// Executable counterpart of [`strip_quotes_s`].
pub fn strip_quotes_str(s: &str) -> (r: &str)
    ensures
        r@ == strip_quotes_s(s@),
{
    let mut j: usize = s.unicode_len();
    proof {
        assert(s@.subrange(0, j as int) =~= s@);
    }
    while j > 0 && s.get_char(j - 1) == '"'
        invariant
            j <= s@.len(),
            strip_quotes_end_s(s@) == strip_quotes_end_s(s@.subrange(0, j as int)),
        decreases j,
    {
        proof {
            let pre = s@.subrange(0, j as int);
            assert(pre.drop_last() =~= s@.subrange(0, j - 1));
        }
        j = j - 1;
    }
    proof {
        assert(s@.subrange(0, s@.len() as int) =~= s@);
        let pre = s@.subrange(0, j as int);
        assert(strip_quotes_end_s(pre) == pre);
        assert(strip_quotes_end_s(s@) == pre);
    }
    let mut i: usize = 0;
    while i < j && s.get_char(i) == '"'
        invariant
            i <= j <= s@.len(),
            strip_quotes_end_s(s@) == s@.subrange(0, j as int),
            strip_quotes_start_s(s@.subrange(0, j as int))
                == strip_quotes_start_s(s@.subrange(i as int, j as int)),
        decreases j - i,
    {
        proof {
            let suf = s@.subrange(i as int, j as int);
            assert(suf.drop_first() =~= s@.subrange(i + 1, j as int));
        }
        i = i + 1;
    }
    proof {
        let suf = s@.subrange(i as int, j as int);
        assert(strip_quotes_start_s(suf) == suf);
    }
    s.substring_char(i, j)
}

/// Executable counterpart of [`strip_commas_end_s`].
pub fn strip_commas_end_str(s: &str) -> (r: &str)
    ensures
        r@ == strip_commas_end_s(s@),
{
    let mut j: usize = s.unicode_len();
    proof {
        assert(s@.subrange(0, j as int) =~= s@);
    }
    while j > 0 && s.get_char(j - 1) == ','
        invariant
            j <= s@.len(),
            strip_commas_end_s(s@) == strip_commas_end_s(s@.subrange(0, j as int)),
        decreases j,
    {
        proof {
            let pre = s@.subrange(0, j as int);
            assert(pre.drop_last() =~= s@.subrange(0, j - 1));
        }
        j = j - 1;
    }
    proof {
        assert(s@.subrange(0, s@.len() as int) =~= s@);
        let pre = s@.subrange(0, j as int);
        assert(strip_commas_end_s(pre) == pre);
    }
    s.substring_char(0, j)
}

/// Index of the first occurrence of `c` in `s`, if any.
pub fn find_char(s: &str, c: char) -> (r: Option<usize>)
    ensures
        match r {
            Some(i) => first_index_of(s@, c) == i as int,
            None => first_index_of(s@, c) < 0,
        },
{
    let n: usize = s.unicode_len();
    let mut i: usize = 0;
    while i < n
        invariant
            n == s@.len(),
            i <= n,
            forall|j: int| 0 <= j < i ==> s@[j] != c,
        decreases n - i,
    {
        if s.get_char(i) == c {
            proof {
                lemma_first_index_at(s@, c, i as int);
            }
            return Some(i);
        }
        i = i + 1;
    }
    proof {
        lemma_first_index_none(s@, c);
    }
    None
}

/// Executable counterpart of [`split_lines_s`]: the lines of `s`, in order.
pub fn split_lines(s: &str) -> (r: Vec<String>)
    ensures
        r@.len() == split_lines_s(s@).len(),
        forall|i: int| 0 <= i < r@.len() ==> r@[i]@ == split_lines_s(s@)[i],
{
    let n: usize = s.unicode_len();
    let mut out: Vec<String> = Vec::new();
    let mut start: usize = 0;
    let mut i: usize = 0;
    proof {
        assert(s@.subrange(0, n as int) =~= s@);
        assert(out@.map_values(|l: String| l@) =~= Seq::<Seq<char>>::empty());
        assert(Seq::<Seq<char>>::empty() + split_lines_s(s@) =~= split_lines_s(s@));
    }
    while i < n
        invariant
            n == s@.len(),
            start <= i <= n,
            forall|j: int| start <= j < i ==> s@[j] != '\n',
            split_lines_s(s@) =~= out@.map_values(|l: String| l@)
                + split_lines_s(s@.subrange(start as int, n as int)),
        decreases n - i,
    {
        if s.get_char(i) == '\n' {
            let line = s.substring_char(start, i).to_owned();
            proof {
                let suf = s@.subrange(start as int, n as int);
                assert(forall|j: int| 0 <= j < i - start ==> suf[j] != '\n');
                lemma_first_index_at(suf, '\n', i - start);
                assert(suf.subrange(0, i - start) =~= s@.subrange(start as int, i as int));
                assert(suf.subrange(i - start + 1, suf.len() as int)
                    =~= s@.subrange(i + 1, n as int));
                assert((out@.push(line)).map_values(|l: String| l@)
                    =~= out@.map_values(|l: String| l@).push(line@));
            }
            out.push(line);
            start = i + 1;
        }
        i = i + 1;
    }
    let line = s.substring_char(start, n).to_owned();
    proof {
        let suf = s@.subrange(start as int, n as int);
        lemma_first_index_none(suf, '\n');
        assert(split_lines_s(suf) == seq![suf]);
        assert((out@.push(line)).map_values(|l: String| l@)
            =~= out@.map_values(|l: String| l@).push(line@));
    }
    out.push(line);
    out
}

} // verus!
