//! The line-oriented parser for resource file text: a small state machine
//! that turns raw text into a [`RawTable`], handling comments, blank lines,
//! single-line entries, and quoted-string or bracketed-array values continued
//! over several lines.
//!
//! The parser is total: malformed lines are skipped, and a continuation that
//! is still open at end of input is committed with whatever was accumulated.

use crate::table::RawTable;
use crate::text::{
    find_char, first_index_of, split_lines, split_lines_s, strip_quotes_s, strip_quotes_str,
    trim_end_s, trim_end_str, trim_s, trim_str,
};
use vstd::prelude::*;

verus! {

/// The continuation state of the parser between two input lines.
pub enum SpecState {
    /// Outside any continuation.
    Normal,
    /// Inside a multi-line quoted string for `key`, with `buf` accumulated.
    InString { key: Seq<char>, buf: Seq<char> },
    /// Inside a multi-line array for `key`, with `buf` accumulated.
    InArray { key: Seq<char>, buf: Seq<char> },
}

/// The whole configuration of the parser between two input lines.
pub struct SpecStep {
    pub state: SpecState,
    pub table: Map<Seq<char>, Seq<char>>,
}

/// A trimmed line ends with a quote that is not escaped by a backslash.
pub open spec fn ends_unescaped_quote(t: Seq<char>) -> bool {
    &&& t.len() > 0
    &&& t.last() == '"'
    &&& !(t.len() >= 2 && t[t.len() - 2] == '\\')
}

/// One transition of the state machine on one input line (with its trailing
/// whitespace already stripped).
pub open spec fn parse_step(st: SpecStep, line: Seq<char>) -> SpecStep {
    match st.state {
        SpecState::InString { key, buf } => {
            let buf2 = buf + line + seq!['\n'];
            if ends_unescaped_quote(trim_s(line)) {
                SpecStep { state: SpecState::Normal, table: st.table.insert(key, trim_s(buf2)) }
            } else {
                SpecStep { state: SpecState::InString { key, buf: buf2 }, table: st.table }
            }
        },
        SpecState::InArray { key, buf } => {
            let buf2 = buf + line + seq!['\n'];
            let t = trim_s(line);
            if t.len() > 0 && t.last() == ']' {
                SpecStep { state: SpecState::Normal, table: st.table.insert(key, trim_s(buf2)) }
            } else {
                SpecStep { state: SpecState::InArray { key, buf: buf2 }, table: st.table }
            }
        },
        SpecState::Normal => {
            let t = trim_s(line);
            if t.len() == 0 || t.first() == '#' {
                st
            } else if first_index_of(line, '=') < 0 {
                st
            } else {
                let e = first_index_of(line, '=');
                let key = trim_s(line.subrange(0, e));
                let value = trim_s(line.subrange(e + 1, line.len() as int));
                if key.len() == 0 {
                    st
                } else if value.len() == 0 {
                    // value-on-next-line form: `key =` opens a string continuation
                    SpecStep {
                        state: SpecState::InString { key, buf: Seq::empty() },
                        table: st.table,
                    }
                } else if value.first() == '[' {
                    if value.last() == ']' {
                        SpecStep { state: SpecState::Normal, table: st.table.insert(key, value) }
                    } else {
                        SpecStep {
                            state: SpecState::InArray { key, buf: value + seq!['\n'] },
                            table: st.table,
                        }
                    }
                } else if value.first() == '"' {
                    if value.len() >= 2 && ends_unescaped_quote(value) {
                        SpecStep {
                            state: SpecState::Normal,
                            table: st.table.insert(key, strip_quotes_s(value)),
                        }
                    } else {
                        SpecStep {
                            state: SpecState::InString { key, buf: value + seq!['\n'] },
                            table: st.table,
                        }
                    }
                } else {
                    SpecStep { state: SpecState::Normal, table: st.table.insert(key, value) }
                }
            }
        },
    }
}

/// The configuration reached after consuming all of `lines`, with trailing
/// whitespace stripped off each line first.
pub open spec fn parse_run(lines: Seq<Seq<char>>) -> SpecStep
    decreases lines.len(),
{
    if lines.len() == 0 {
        SpecStep { state: SpecState::Normal, table: Map::empty() }
    } else {
        parse_step(parse_run(lines.drop_last()), trim_end_s(lines.last()))
    }
}

/// End of input: an open continuation is committed with what it accumulated.
pub open spec fn parse_finish(st: SpecStep) -> Map<Seq<char>, Seq<char>> {
    match st.state {
        SpecState::Normal => st.table,
        SpecState::InString { key, buf } => st.table.insert(key, trim_s(buf)),
        SpecState::InArray { key, buf } => st.table.insert(key, trim_s(buf)),
    }
}

/// The key-to-raw-value mapping described by a resource file text.
pub open spec fn spec_parse(text: Seq<char>) -> Map<Seq<char>, Seq<char>> {
    parse_finish(parse_run(split_lines_s(text)))
}

/// A continuation that never sees its terminator is still committed: if the
/// parser's run over the lines of `text` ends inside a string or array
/// continuation for `key`, the parsed table binds `key` to the accumulated
/// buffer, trimmed of surrounding whitespace — nothing is lost at end of
/// input.
pub proof fn lemma_unterminated_continuation_committed(
    text: Seq<char>,
    key: Seq<char>,
    buf: Seq<char>,
)
    requires
        parse_run(split_lines_s(text)).state == (SpecState::InString { key, buf })
            || parse_run(split_lines_s(text)).state == (SpecState::InArray { key, buf }),
    ensures
        spec_parse(text).contains_key(key),
        spec_parse(text)[key] == trim_s(buf),
{
}

/// A well-formed single-line entry `key="inner"` parses to a table binding
/// `key` to `inner` (the outer quotes stripped), and that stored value
/// decodes to the scalar `inner` unchanged.
///
/// The entry is well formed when the key is trimmed, non-empty, no comment
/// opener, and free of `=`; and when `inner` holds no quote, backslash or
/// newline and is not itself shaped like a bracketed array.
pub proof fn lemma_single_line_quoted_entry(key: Seq<char>, inner: Seq<char>)
    requires
        key.len() > 0,
        !crate::text::is_space(key.first()),
        !crate::text::is_space(key.last()),
        key.first() != '#',
        forall|i: int| 0 <= i < key.len() ==> key[i] != '=' && key[i] != '\n',
        forall|i: int| 0 <= i < inner.len()
            ==> inner[i] != '"' && inner[i] != '\\' && inner[i] != '\n',
        !(trim_s(inner).len() >= 2 && trim_s(inner).first() == '[' && trim_s(inner).last() == ']'),
    ensures
        spec_parse(key + seq!['='] + seq!['"'] + inner + seq!['"']).contains_key(key),
        spec_parse(key + seq!['='] + seq!['"'] + inner + seq!['"'])[key] == inner,
        crate::decoder::spec_decode(inner) == crate::decoder::SpecDecoded::Scalar(inner),
{
    let value = seq!['"'] + inner + seq!['"'];
    let line = key + seq!['='] + seq!['"'] + inner + seq!['"'];
    assert(line =~= key + seq!['='] + value);
    assert(value.len() == inner.len() + 2);
    assert(line.len() == key.len() + 1 + value.len());

    // the entry is one single line
    assert forall|i: int| 0 <= i < line.len() implies line[i] != '\n' by {
        if i < key.len() {
            assert(line[i] == key[i]);
        } else if i == key.len() {
            assert(line[i] == '=');
        } else {
            assert(line[i] == value[i - key.len() - 1]);
            let k = i - key.len() - 1;
            if k > 0 && k < inner.len() + 1 {
                assert(value[k] == inner[k - 1]);
            }
        }
    }
    crate::text::lemma_first_index_none(line, '\n');
    assert(split_lines_s(line) =~= seq![line]);

    // running the machine over that one line
    let lines = seq![line];
    assert(lines.drop_last() =~= Seq::<Seq<char>>::empty());
    let init = parse_run(lines.drop_last());
    assert(init.state == SpecState::Normal);
    assert(init.table =~= Map::<Seq<char>, Seq<char>>::empty());
    assert(line.last() == '"');
    assert(!crate::text::is_space(line.last()));
    assert(trim_end_s(line) == line);
    assert(parse_run(lines) == parse_step(init, line));

    // the Normal-state transition stores the quote-stripped value
    assert(line.first() == key.first());
    assert(!crate::text::is_space(line.first()));
    assert(trim_s(line) == line);
    assert(line.first() != '#');
    assert(line[key.len() as int] == '=');
    assert forall|j: int| 0 <= j < key.len() implies line[j] != '=' by {
        assert(line[j] == key[j]);
    }
    crate::text::lemma_first_index_at(line, '=', key.len() as int);
    assert(line.subrange(0, key.len() as int) =~= key);
    assert(trim_end_s(key) == key);
    assert(trim_s(key) == key);
    assert(line.subrange(key.len() as int + 1, line.len() as int) =~= value);
    assert(value.first() == '"');
    assert(value.last() == '"');
    assert(trim_end_s(value) == value);
    assert(trim_s(value) == value);
    assert(value.len() >= 2);
    if inner.len() > 0 {
        assert(value[value.len() - 2] == inner.last());
        assert(value[value.len() - 2] != '\\');
    } else {
        assert(value[value.len() - 2] == '"');
    }
    assert(ends_unescaped_quote(value));
    crate::text::lemma_strip_quotes_wrapped(inner);
    assert(parse_step(init, line).state == SpecState::Normal);
    assert(parse_step(init, line).table
        == init.table.insert(key, crate::text::strip_quotes_s(value)));
    assert(spec_parse(line).contains_key(key));
    assert(spec_parse(line)[key] == inner);

    // the stored value decodes to itself: it is neither array- nor
    // quote-shaped
    let t2 = trim_s(inner);
    crate::text::lemma_trim_end_prefix(inner);
    crate::text::lemma_trim_start_suffix(trim_end_s(inner));
    if t2.len() > 0 {
        let te = trim_end_s(inner);
        assert(t2[0] == te[te.len() - t2.len()]);
        assert(te[te.len() - t2.len()] == inner[te.len() - t2.len()]);
        assert(t2.first() != '"');
    }
    assert(crate::decoder::spec_decode(inner) == crate::decoder::SpecDecoded::Scalar(inner));
}

/// The executable continuation state, mirroring [`SpecState`].
enum ParserState {
    Normal,
    InString { key: String, buf: String },
    InArray { key: String, buf: String },
}

impl ParserState {
    spec fn model(&self) -> SpecState {
        match self {
            ParserState::Normal => SpecState::Normal,
            ParserState::InString { key, buf } => SpecState::InString { key: key@, buf: buf@ },
            ParserState::InArray { key, buf } => SpecState::InArray { key: key@, buf: buf@ },
        }
    }
}

/// Whether the trimmed line `t` ends with an unescaped quote.
fn ends_unescaped_quote_str(t: &str) -> (r: bool)
    ensures
        r == ends_unescaped_quote(t@),
{
    let n = t.unicode_len();
    if n == 0 {
        return false;
    }
    if t.get_char(n - 1) != '"' {
        return false;
    }
    if n >= 2 && t.get_char(n - 2) == '\\' {
        return false;
    }
    true
}

/// Feeds one line (trailing whitespace already stripped) to the state
/// machine.
fn process_line(st: ParserState, line: &str, table: &mut RawTable) -> (r: ParserState)
    requires
        old(table).wf(),
    ensures
        final(table).wf(),
        (SpecStep { state: r.model(), table: final(table).model() } == parse_step(
            SpecStep { state: st.model(), table: old(table).model() },
            line@,
        )),
{
    let ghost pre = SpecStep { state: st.model(), table: table.model() };
    match st {
        ParserState::InString { key, mut buf } => {
            buf.append(line);
            buf.append("\n");
            proof {
                reveal_strlit("\n");
                assert("\n"@ =~= seq!['\n']);
            }
            let t = trim_str(line);
            if ends_unescaped_quote_str(t) {
                let committed = trim_str(buf.as_str()).to_owned();
                table.insert(key, committed);
                ParserState::Normal
            } else {
                ParserState::InString { key, buf }
            }
        },
        ParserState::InArray { key, mut buf } => {
            buf.append(line);
            buf.append("\n");
            proof {
                reveal_strlit("\n");
                assert("\n"@ =~= seq!['\n']);
            }
            let t = trim_str(line);
            let tn = t.unicode_len();
            if tn > 0 && t.get_char(tn - 1) == ']' {
                let committed = trim_str(buf.as_str()).to_owned();
                table.insert(key, committed);
                ParserState::Normal
            } else {
                ParserState::InArray { key, buf }
            }
        },
        ParserState::Normal => {
            let t = trim_str(line);
            let tn = t.unicode_len();
            if tn == 0 || t.get_char(0) == '#' {
                return ParserState::Normal;
            }
            let eq = match find_char(line, '=') {
                Some(i) => i,
                None => {
                    return ParserState::Normal;
                },
            };
            proof {
                crate::text::lemma_first_index_of(line@, '=');
            }
            let n = line.unicode_len();
            let key = trim_str(line.substring_char(0, eq)).to_owned();
            let value = trim_str(line.substring_char(eq + 1, n)).to_owned();
            let vn = value.as_str().unicode_len();
            if key.as_str().unicode_len() == 0 {
                return ParserState::Normal;
            }
            if vn == 0 {
                let buf = String::new();
                proof {
                    assert(buf@ =~= Seq::<char>::empty());
                }
                return ParserState::InString { key, buf };
            }
            let first = value.as_str().get_char(0);
            if first == '[' {
                if value.as_str().get_char(vn - 1) == ']' {
                    table.insert(key, value);
                    ParserState::Normal
                } else {
                    let mut buf = value;
                    buf.append("\n");
                    proof {
                        reveal_strlit("\n");
                        assert("\n"@ =~= seq!['\n']);
                    }
                    ParserState::InArray { key, buf }
                }
            } else if first == '"' {
                if vn >= 2 && ends_unescaped_quote_str(value.as_str()) {
                    let stripped = strip_quotes_str(value.as_str()).to_owned();
                    table.insert(key, stripped);
                    ParserState::Normal
                } else {
                    let mut buf = value;
                    buf.append("\n");
                    proof {
                        reveal_strlit("\n");
                        assert("\n"@ =~= seq!['\n']);
                    }
                    ParserState::InString { key, buf }
                }
            } else {
                table.insert(key, value);
                ParserState::Normal
            }
        },
    }
}

/// Parses the text of one resource file into its key-to-raw-value table.
///
/// Parsing never fails: comment lines, blank lines, lines without `=` and
/// entries with an empty key are skipped, and a continuation left open at
/// end of input is committed with what it accumulated, trimmed.
pub fn parse(text: &str) -> (t: RawTable)
    ensures
        t.wf(),
        t.model() == spec_parse(text@),
{
    let lines = split_lines(text);
    let ghost ls = split_lines_s(text@);
    let mut table = RawTable::new();
    let mut st = ParserState::Normal;
    let n = lines.len();
    let mut i: usize = 0;
    proof {
        assert(ls.take(0) =~= Seq::<Seq<char>>::empty());
    }
    while i < n
        invariant
            table.wf(),
            n == lines.len(),
            i <= n,
            ls.len() == n,
            forall|j: int| 0 <= j < n ==> lines@[j]@ == ls[j],
            (SpecStep { state: st.model(), table: table.model() } == parse_run(ls.take(i as int))),
        decreases n - i,
    {
        let line = trim_end_str(lines[i].as_str());
        st = process_line(st, line, &mut table);
        proof {
            assert(ls.take(i + 1).drop_last() =~= ls.take(i as int));
            assert(ls.take(i + 1).last() == ls[i as int]);
        }
        i = i + 1;
    }
    proof {
        assert(ls.take(n as int) =~= ls);
    }
    match st {
        ParserState::Normal => table,
        ParserState::InString { key, buf } => {
            let committed = trim_str(buf.as_str()).to_owned();
            table.insert(key, committed);
            table
        },
        ParserState::InArray { key, buf } => {
            let committed = trim_str(buf.as_str()).to_owned();
            table.insert(key, committed);
            table
        },
    }
}

} // verus!
