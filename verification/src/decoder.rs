//! The value decoder: turns the raw value text stored in a table into its
//! logical shape — a scalar string (with quote and escape processing) or an
//! array of strings.  Decoding is a total, pure function of the raw value.

use crate::text::{
    split_lines, split_lines_s, strip_commas_end_s, strip_commas_end_str, strip_quotes_s,
    strip_quotes_str, trim_s, trim_str, push_char,
};
use vstd::prelude::*;

verus! {

/// The logical shape of a decoded value.
pub enum SpecDecoded {
    Scalar(Seq<char>),
    StringArray(Seq<Seq<char>>),
}

/// A decoded value: a plain string or an ordered array of strings.
#[derive(Debug, PartialEq, Eq)]
pub enum DecodedValue {
    Scalar(String),
    StringArray(Vec<String>),
}

impl DecodedValue {
    pub open spec fn model(&self) -> SpecDecoded {
        match self {
            DecodedValue::Scalar(s) => SpecDecoded::Scalar(s@),
            DecodedValue::StringArray(v) => SpecDecoded::StringArray(
                v@.map_values(|x: String| x@),
            ),
        }
    }
}

/// `s` with every `\n` escape turned into a newline and every `\"` escape
/// turned into a double quote, scanned left to right.
pub open spec fn spec_unescape(s: Seq<char>) -> Seq<char>
    decreases s.len(),
{
    if s.len() == 0 {
        s
    } else if s.len() >= 2 && s[0] == '\\' && s[1] == 'n' {
        seq!['\n'] + spec_unescape(s.subrange(2, s.len() as int))
    } else if s.len() >= 2 && s[0] == '\\' && s[1] == '"' {
        seq!['"'] + spec_unescape(s.subrange(2, s.len() as int))
    } else {
        seq![s[0]] + spec_unescape(s.drop_first())
    }
}

/// Whether an array line carries a quoted string once trimmed and with its
/// trailing commas removed.
pub open spec fn kept_line(l: Seq<char>) -> bool {
    let c = strip_commas_end_s(trim_s(l));
    c.len() > 0 && c.first() == '"' && c.last() == '"'
}

/// The string an array line contributes: quotes stripped after trimming and
/// comma removal.
pub open spec fn item_of(l: Seq<char>) -> Seq<char> {
    strip_quotes_s(strip_commas_end_s(trim_s(l)))
}

/// The strings collected from the lines of an array body, in source order;
/// lines that are not quoted strings are dropped.
pub open spec fn decode_items(lines: Seq<Seq<char>>) -> Seq<Seq<char>>
    decreases lines.len(),
{
    if lines.len() == 0 {
        Seq::empty()
    } else {
        let rest = decode_items(lines.drop_last());
        if kept_line(lines.last()) {
            rest.push(item_of(lines.last()))
        } else {
            rest
        }
    }
}

/// The logical shape of a raw value.
///
/// A trimmed value in brackets decodes to the array of its quoted lines; a
/// trimmed value in quotes decodes to the unescaped scalar between them;
/// anything else decodes to itself, unchanged.
pub open spec fn spec_decode(raw: Seq<char>) -> SpecDecoded {
    let t = trim_s(raw);
    if t.len() >= 2 && t.first() == '[' && t.last() == ']' {
        SpecDecoded::StringArray(decode_items(split_lines_s(t.subrange(1, t.len() - 1))))
    } else if t.len() > 0 && t.first() == '"' && t.last() == '"' {
        SpecDecoded::Scalar(spec_unescape(strip_quotes_s(t)))
    } else {
        SpecDecoded::Scalar(raw)
    }
}

/// The predicate [`kept_line`] as a value, for use with `filter`.
pub open spec fn kept_pred() -> spec_fn(Seq<char>) -> bool {
    |l: Seq<char>| kept_line(l)
}

/// The function [`item_of`] as a value, for use with `map_values`.
pub open spec fn item_fn() -> spec_fn(Seq<char>) -> Seq<char> {
    |l: Seq<char>| item_of(l)
}

/// The strings an array body yields are exactly its quoted lines, in source
/// order: the items are the kept lines in order, each with its quotes
/// stripped, and their count is the count of kept lines.
pub proof fn lemma_decode_items_in_order(lines: Seq<Seq<char>>)
    ensures
        decode_items(lines) == lines.filter(kept_pred()).map_values(item_fn()),
        decode_items(lines).len() == lines.filter(kept_pred()).len(),
    decreases lines.len(),
{
    reveal(Seq::filter);
    if lines.len() > 0 {
        lemma_decode_items_in_order(lines.drop_last());
        let f = lines.drop_last().filter(kept_pred());
        assert(lines.filter(kept_pred()) == if kept_pred()(lines.last()) {
            f.push(lines.last())
        } else {
            f
        });
        if kept_line(lines.last()) {
            assert(f.push(lines.last()).map_values(item_fn())
                =~= f.map_values(item_fn()).push(item_of(lines.last())));
        }
    }
}

/// An array-shaped raw value decodes to a `StringArray` holding exactly the
/// quoted-string lines between its brackets, in source order: one element
/// per kept line, so the array's length equals the count of quoted lines.
pub proof fn lemma_array_decode(raw: Seq<char>)
    requires
        trim_s(raw).len() >= 2,
        trim_s(raw).first() == '[',
        trim_s(raw).last() == ']',
    ensures
        ({
            let lines = split_lines_s(trim_s(raw).subrange(1, trim_s(raw).len() - 1));
            spec_decode(raw) == SpecDecoded::StringArray(
                lines.filter(kept_pred()).map_values(item_fn()),
            )
        }),
{
    lemma_decode_items_in_order(split_lines_s(trim_s(raw).subrange(1, trim_s(raw).len() - 1)));
}

/// Executable counterpart of [`spec_unescape`].
fn unescape(s: &str) -> (r: String)
    ensures
        r@ == spec_unescape(s@),
{
    let n = s.unicode_len();
    let mut out = String::new();
    let mut i: usize = 0;
    proof {
        assert(s@.subrange(0, n as int) =~= s@);
        assert(out@ + spec_unescape(s@) =~= spec_unescape(s@));
    }
    while i < n
        invariant
            n == s@.len(),
            i <= n,
            spec_unescape(s@) == out@ + spec_unescape(s@.subrange(i as int, n as int)),
        decreases n - i,
    {
        let ghost suf = s@.subrange(i as int, n as int);
        let c = s.get_char(i);
        proof {
            assert(suf[0] == s@[i as int]);
            if suf.len() >= 2 {
                assert(suf[1] == s@[i + 1]);
            }
        }
        if i + 1 < n && c == '\\' && s.get_char(i + 1) == 'n' {
            let ghost pre = out@;
            push_char(&mut out, '\n');
            proof {
                assert(suf.subrange(2, suf.len() as int) =~= s@.subrange(i + 2, n as int));
                assert(out@ =~= pre + seq!['\n']);
                assert(pre + (seq!['\n'] + spec_unescape(s@.subrange(i + 2, n as int)))
                    =~= out@ + spec_unescape(s@.subrange(i + 2, n as int)));
            }
            i = i + 2;
        } else if i + 1 < n && c == '\\' && s.get_char(i + 1) == '"' {
            let ghost pre = out@;
            push_char(&mut out, '"');
            proof {
                assert(suf.subrange(2, suf.len() as int) =~= s@.subrange(i + 2, n as int));
                assert(out@ =~= pre + seq!['"']);
                assert(pre + (seq!['"'] + spec_unescape(s@.subrange(i + 2, n as int)))
                    =~= out@ + spec_unescape(s@.subrange(i + 2, n as int)));
            }
            i = i + 2;
        } else {
            let ghost pre = out@;
            push_char(&mut out, c);
            proof {
                assert(suf.drop_first() =~= s@.subrange(i + 1, n as int));
                assert(spec_unescape(suf) == seq![c] + spec_unescape(suf.drop_first()));
                assert(out@ =~= pre + seq![c]);
                assert(pre + (seq![c] + spec_unescape(s@.subrange(i + 1, n as int)))
                    =~= out@ + spec_unescape(s@.subrange(i + 1, n as int)));
            }
            i = i + 1;
        }
    }
    proof {
        assert(s@.subrange(n as int, n as int) =~= Seq::<char>::empty());
        assert(out@ + Seq::<char>::empty() =~= out@);
    }
    out
}

/// Decodes one raw value into its logical shape.
///
/// Decoding is pure and total: the result is a function of the raw value
/// alone, and a value that is neither an array nor a quoted string comes
/// back unchanged as a scalar.
pub fn decode(raw: &str) -> (d: DecodedValue)
    ensures
        d.model() == spec_decode(raw@),
{
    let t = trim_str(raw);
    let tn = t.unicode_len();
    if tn >= 2 && t.get_char(0) == '[' && t.get_char(tn - 1) == ']' {
        let inner = t.substring_char(1, tn - 1);
        let ghost ls = split_lines_s(inner@);
        let lines = split_lines(inner);
        let n = lines.len();
        let mut items: Vec<String> = Vec::new();
        let mut i: usize = 0;
        proof {
            assert(items@.map_values(|x: String| x@) =~= decode_items(ls.take(0)));
        }
        while i < n
            invariant
                n == lines.len(),
                i <= n,
                ls.len() == n,
                forall|j: int| 0 <= j < n ==> lines@[j]@ == ls[j],
                items@.map_values(|x: String| x@) == decode_items(ls.take(i as int)),
            decreases n - i,
        {
            let c = strip_commas_end_str(trim_str(lines[i].as_str()));
            let cn = c.unicode_len();
            let ghost pre = items@.map_values(|x: String| x@);
            if cn > 0 && c.get_char(0) == '"' && c.get_char(cn - 1) == '"' {
                let item = strip_quotes_str(c).to_owned();
                proof {
                    assert(kept_line(ls[i as int]));
                    assert(item@ == item_of(ls[i as int]));
                    assert((items@.push(item)).map_values(|x: String| x@)
                        =~= pre.push(item@));
                }
                items.push(item);
            } else {
                proof {
                    assert(!kept_line(ls[i as int]));
                }
            }
            proof {
                assert(ls.take(i + 1).drop_last() =~= ls.take(i as int));
                assert(ls.take(i + 1).last() == ls[i as int]);
            }
            i = i + 1;
        }
        proof {
            assert(ls.take(n as int) =~= ls);
        }
        DecodedValue::StringArray(items)
    } else if tn > 0 && t.get_char(0) == '"' && t.get_char(tn - 1) == '"' {
        DecodedValue::Scalar(unescape(strip_quotes_str(t)))
    } else {
        DecodedValue::Scalar(raw.to_owned())
    }
}

} // verus!
