//! The interface-description generator: renders a TypeScript declaration of
//! the merged data — one `Lang` interface derived from the first resource
//! (the representative schema source), and one `Langs` enumeration of all
//! resource identifiers.
//!
//! Each key's raw value becomes its documentation; a scalar value carrying
//! `{name}` placeholders may, on request, be rendered as a callable field
//! taking one named string argument per distinct placeholder.

use crate::table::AggregatedTable;
use crate::text::{push_char, split_lines, split_lines_s, str_eq, trim_s, trim_str};
use vstd::prelude::*;

verus! {

/// The characters a placeholder name may consist of.
pub open spec fn word_char(c: char) -> bool {
    ('a' <= c && c <= 'z') || ('A' <= c && c <= 'Z') || ('0' <= c && c <= '9') || c == '_'
}

/// The length of the run of word characters in `s` starting at `i`.
pub open spec fn run_len(s: Seq<char>, i: int) -> int
    decreases s.len() - i when i <= s.len()
{
    if i < 0 || i >= s.len() || !word_char(s[i]) {
        0
    } else {
        1 + run_len(s, i + 1)
    }
}

/// Whether a placeholder token `{name}` begins at position `i` of `s`.
pub open spec fn token_at(s: Seq<char>, i: int) -> bool {
    &&& 0 <= i < s.len()
    &&& s[i] == '{'
    &&& run_len(s, i + 1) > 0
    &&& i + 1 + run_len(s, i + 1) < s.len()
    &&& s[i + 1 + run_len(s, i + 1)] == '}'
}

/// The placeholder names found in `s` from position `i` on: the text
/// between the braces of each `{name}` token, leftmost first, scanning
/// resuming after each token.
pub open spec fn placeholders_from(s: Seq<char>, i: int) -> Seq<Seq<char>>
    decreases s.len() - i when i <= s.len()
{
    if i < 0 || i >= s.len() {
        Seq::empty()
    } else if token_at(s, i) {
        seq![s.subrange(i + 1, i + 1 + run_len(s, i + 1))]
            + placeholders_from(s, i + 2 + run_len(s, i + 1))
    } else {
        placeholders_from(s, i + 1)
    }
}

/// All placeholder names of `s`, in order of occurrence, duplicates kept.
pub open spec fn spec_placeholders(s: Seq<char>) -> Seq<Seq<char>> {
    placeholders_from(s, 0)
}

/// `s` with every later duplicate removed: first occurrences, in order.
pub open spec fn dedup_first(s: Seq<Seq<char>>) -> Seq<Seq<char>>
    decreases s.len(),
{
    if s.len() == 0 {
        s
    } else {
        let rest = dedup_first(s.drop_last());
        if rest.contains(s.last()) {
            rest
        } else {
            rest.push(s.last())
        }
    }
}

/// The identifiers of a resource sequence, in order.
pub open spec fn resource_ids(rs: Seq<(Seq<char>, Seq<(Seq<char>, Seq<char>)>)>) -> Seq<Seq<char>> {
    Seq::new(rs.len(), |i: int| rs[i].0)
}

/// The documentation block lines for a multi-line value.
pub open spec fn doc_lines_s(ls: Seq<Seq<char>>) -> Seq<char>
    decreases ls.len(),
{
    if ls.len() == 0 {
        Seq::empty()
    } else {
        doc_lines_s(ls.drop_last()) + "     * "@ + ls.last() + "\n"@
    }
}

/// The documentation comment derived from a raw value: one `/** ... */`
/// line for a single-line value, a block otherwise.
pub open spec fn doc_comment_s(value: Seq<char>) -> Seq<char> {
    let ls = split_lines_s(value);
    if ls.len() == 1 {
        "    /** "@ + ls[0] + " */\n"@
    } else {
        "    /**\n"@ + doc_lines_s(ls) + "     */\n"@
    }
}

/// The `name: string` argument list of a callable field, comma-separated.
pub open spec fn args_list_s(ps: Seq<Seq<char>>) -> Seq<char>
    decreases ps.len(),
{
    if ps.len() == 0 {
        Seq::empty()
    } else if ps.len() == 1 {
        ps[0] + ": string"@
    } else {
        args_list_s(ps.drop_last()) + ", "@ + ps.last() + ": string"@
    }
}

/// The declaration line of one field: a callable for a placeholder-bearing
/// scalar when requested, else a string array or a plain string.
pub open spec fn field_line_s(key: Seq<char>, value: Seq<char>, gen_placeholder: bool) -> Seq<char> {
    let t = trim_s(value);
    let ps = dedup_first(spec_placeholders(value));
    if ps.len() > 0 && gen_placeholder && !(t.len() > 0 && t.first() == '[') {
        "    '"@ + key + "': (args: { "@ + args_list_s(ps) + " }) => string;\n"@
    } else if t.len() > 0 && t.first() == '[' && t.last() == ']' {
        "    '"@ + key + "': string[];\n"@
    } else {
        "    '"@ + key + "': string;\n"@
    }
}

/// Documentation comment plus declaration line for one key.
pub open spec fn entry_block_s(key: Seq<char>, value: Seq<char>, gen_placeholder: bool) -> Seq<char> {
    doc_comment_s(value) + field_line_s(key, value, gen_placeholder)
}

/// The body of the `Lang` interface: one block per key, in entry order.
pub open spec fn fields_s(entries: Seq<(Seq<char>, Seq<char>)>, gen_placeholder: bool) -> Seq<char>
    decreases entries.len(),
{
    if entries.len() == 0 {
        Seq::empty()
    } else {
        fields_s(entries.drop_last(), gen_placeholder)
            + entry_block_s(entries.last().0, entries.last().1, gen_placeholder)
    }
}

/// The body of the `Langs` interface: one line per resource identifier.
pub open spec fn langs_s(ids: Seq<Seq<char>>) -> Seq<char>
    decreases ids.len(),
{
    if ids.len() == 0 {
        Seq::empty()
    } else {
        langs_s(ids.drop_last()) + "    '"@ + ids.last() + "': Lang;\n"@
    }
}

/// The whole interface description of an aggregated table, with the first
/// resource as schema source.
pub open spec fn spec_generate(
    rs: Seq<(Seq<char>, Seq<(Seq<char>, Seq<char>)>)>,
    gen_placeholder: bool,
) -> Seq<char> {
    "/* eslint-disable */\nexport interface Lang {\n"@ + (if rs.len() == 0 {
        Seq::<char>::empty()
    } else {
        fields_s(rs[0].1, gen_placeholder)
    }) + "}\n\nexport interface Langs {\n"@ + langs_s(resource_ids(rs))
        + "}\n\nexport const langs: Langs;\n"@
}

fn word_char_c(c: char) -> (r: bool)
    ensures
        r == word_char(c),
{
    ('a' <= c && c <= 'z') || ('A' <= c && c <= 'Z') || ('0' <= c && c <= '9') || c == '_'
}

proof fn lemma_run_len_at(s: Seq<char>, i: int, j: int)
    requires
        0 <= i <= j <= s.len(),
        forall|k: int| i <= k < j ==> word_char(s[k]),
        j == s.len() || !word_char(s[j]),
    ensures
        run_len(s, i) == j - i,
    decreases j - i,
{
    if i < j {
        lemma_run_len_at(s, i + 1, j);
    }
}

/// The length of the word-character run at position `i` of `s`.
fn word_run(s: &str, i: usize) -> (r: usize)
    requires
        i <= s@.len(),
    ensures
        r == run_len(s@, i as int),
        i + r <= s@.len(),
{
    let n = s.unicode_len();
    let mut j: usize = i;
    while j < n && word_char_c(s.get_char(j))
        invariant
            n == s@.len(),
            i <= j <= n,
            forall|k: int| i <= k < j ==> word_char(s@[k]),
        decreases n - j,
    {
        j = j + 1;
    }
    proof {
        lemma_run_len_at(s@, i as int, j as int);
    }
    j - i
}

/// The placeholder names occurring in `s`, in order, duplicates kept.
fn placeholders(s: &str) -> (r: Vec<String>)
    ensures
        r@.map_values(|x: String| x@) == spec_placeholders(s@),
{
    let n = s.unicode_len();
    let mut out: Vec<String> = Vec::new();
    let mut i: usize = 0;
    proof {
        assert(out@.map_values(|x: String| x@) =~= Seq::<Seq<char>>::empty());
        assert(Seq::<Seq<char>>::empty() + placeholders_from(s@, 0) =~= placeholders_from(s@, 0));
    }
    while i < n
        invariant
            n == s@.len(),
            i <= n,
            spec_placeholders(s@) == out@.map_values(|x: String| x@)
                + placeholders_from(s@, i as int),
        decreases n - i,
    {
        let c = s.get_char(i);
        if c == '{' {
            let r = word_run(s, i + 1);
            if r > 0 && i + 1 + r < n && s.get_char(i + 1 + r) == '}' {
                let name = s.substring_char(i + 1, i + 1 + r).to_owned();
                let ghost pre = out@.map_values(|x: String| x@);
                proof {
                    assert(token_at(s@, i as int));
                    assert((out@.push(name)).map_values(|x: String| x@) =~= pre.push(name@));
                    assert(pre + (seq![name@] + placeholders_from(s@, i + 2 + r))
                        =~= pre.push(name@) + placeholders_from(s@, i + 2 + r));
                }
                out.push(name);
                i = i + 2 + r;
                continue ;
            }
            proof {
                assert(!token_at(s@, i as int));
            }
        } else {
            proof {
                assert(!token_at(s@, i as int));
            }
        }
        i = i + 1;
    }
    proof {
        assert(out@.map_values(|x: String| x@) + Seq::<Seq<char>>::empty()
            =~= out@.map_values(|x: String| x@));
    }
    out
}

/// Whether some string of `v` holds the characters `x`.
fn contains_string(v: &Vec<String>, x: &str) -> (r: bool)
    ensures
        r == v@.map_values(|y: String| y@).contains(x@),
{
    let n = v.len();
    let mut i: usize = 0;
    while i < n
        invariant
            n == v.len(),
            i <= n,
            forall|j: int| 0 <= j < i ==> v@[j]@ != x@,
        decreases n - i,
    {
        if str_eq(v[i].as_str(), x) {
            proof {
                assert(v@.map_values(|y: String| y@)[i as int] == x@);
            }
            return true;
        }
        i = i + 1;
    }
    proof {
        let ghost m = v@.map_values(|y: String| y@);
        if m.contains(x@) {
            let j = choose|j: int| 0 <= j < m.len() && #[trigger] m[j] == x@;
            assert(v@[j]@ == x@);
        }
    }
    false
}

/// Executable counterpart of [`dedup_first`]: first occurrences, in order.
fn dedup_strings(v: &Vec<String>) -> (r: Vec<String>)
    ensures
        r@.map_values(|x: String| x@) == dedup_first(v@.map_values(|x: String| x@)),
{
    let ghost vs = v@.map_values(|x: String| x@);
    let n = v.len();
    let mut out: Vec<String> = Vec::new();
    let mut i: usize = 0;
    proof {
        assert(out@.map_values(|x: String| x@) =~= dedup_first(vs.take(0)));
    }
    while i < n
        invariant
            n == v.len(),
            vs.len() == n,
            i <= n,
            forall|j: int| 0 <= j < n ==> vs[j] == v@[j]@,
            out@.map_values(|x: String| x@) == dedup_first(vs.take(i as int)),
        decreases n - i,
    {
        let ghost pre = out@.map_values(|x: String| x@);
        if !contains_string(&out, v[i].as_str()) {
            let item = v[i].clone();
            proof {
                assert((out@.push(item)).map_values(|x: String| x@) =~= pre.push(item@));
            }
            out.push(item);
        }
        proof {
            assert(vs.take(i + 1).drop_last() =~= vs.take(i as int));
            assert(vs.take(i + 1).last() == vs[i as int]);
        }
        i = i + 1;
    }
    proof {
        assert(vs.take(n as int) =~= vs);
    }
    out
}

/// Executable counterpart of [`doc_comment_s`].
fn doc_comment(value: &str) -> (r: String)
    ensures
        r@ == doc_comment_s(value@),
{
    let ghost ls = split_lines_s(value@);
    let lines = split_lines(value);
    let mut out = String::new();
    if lines.len() == 1 {
        out.append("    /** ");
        out.append(lines[0].as_str());
        out.append(" */\n");
        proof {
            assert(out@ =~= "    /** "@ + ls[0] + " */\n"@);
        }
    } else {
        out.append("    /**\n");
        let n = lines.len();
        let mut i: usize = 0;
        proof {
            assert(doc_lines_s(ls.take(0)) =~= Seq::<char>::empty());
            assert(out@ + Seq::<char>::empty() =~= out@);
        }
        let ghost header = out@;
        while i < n
            invariant
                n == lines.len(),
                ls.len() == n,
                i <= n,
                forall|j: int| 0 <= j < n ==> lines@[j]@ == ls[j],
                out@ == header + doc_lines_s(ls.take(i as int)),
            decreases n - i,
        {
            let ghost pre = out@;
            out.append("     * ");
            out.append(lines[i].as_str());
            out.append("\n");
            proof {
                assert(ls.take(i + 1).drop_last() =~= ls.take(i as int));
                assert(ls.take(i + 1).last() == ls[i as int]);
                assert(out@ =~= pre + ("     * "@ + ls[i as int] + "\n"@));
                assert(pre + ("     * "@ + ls[i as int] + "\n"@)
                    =~= header + (doc_lines_s(ls.take(i as int)) + "     * "@ + ls[i as int]
                        + "\n"@));
            }
            i = i + 1;
        }
        out.append("     */\n");
        proof {
            assert(ls.take(n as int) =~= ls);
            assert(out@ =~= "    /**\n"@ + doc_lines_s(ls) + "     */\n"@);
        }
    }
    out
}

/// Executable counterpart of [`args_list_s`].
fn args_list(ps: &Vec<String>) -> (r: String)
    ensures
        r@ == args_list_s(ps@.map_values(|x: String| x@)),
{
    let ghost vs = ps@.map_values(|x: String| x@);
    let n = ps.len();
    let mut out = String::new();
    let mut i: usize = 0;
    proof {
        assert(args_list_s(vs.take(0)) =~= Seq::<char>::empty());
        assert(out@ =~= Seq::<char>::empty());
    }
    while i < n
        invariant
            n == ps.len(),
            vs.len() == n,
            i <= n,
            forall|j: int| 0 <= j < n ==> ps@[j]@ == vs[j],
            out@ == args_list_s(vs.take(i as int)),
        decreases n - i,
    {
        let ghost pre = out@;
        if i > 0 {
            out.append(", ");
        }
        out.append(ps[i].as_str());
        out.append(": string");
        proof {
            assert(vs.take(i + 1).drop_last() =~= vs.take(i as int));
            assert(vs.take(i + 1).last() == vs[i as int]);
            if i == 0 {
                assert(vs.take(1).len() == 1);
                assert(vs.take(1)[0] == vs[0]);
                assert(out@ =~= vs[0] + ": string"@);
                assert(args_list_s(vs.take(1)) == vs.take(1)[0] + ": string"@);
            } else {
                assert(out@ =~= pre + ", "@ + vs[i as int] + ": string"@);
            }
        }
        i = i + 1;
    }
    proof {
        assert(vs.take(n as int) =~= vs);
    }
    out
}

/// Executable counterpart of [`field_line_s`].
fn field_line(key: &str, value: &str, gen_placeholder: bool) -> (r: String)
    ensures
        r@ == field_line_s(key@, value@, gen_placeholder),
{
    let t = trim_str(value);
    let tn = t.unicode_len();
    let ps = dedup_strings(&placeholders(value));
    let starts_bracket = tn > 0 && t.get_char(0) == '[';
    let mut out = String::new();
    if ps.len() > 0 && gen_placeholder && !starts_bracket {
        out.append("    '");
        out.append(key);
        out.append("': (args: { ");
        let args = args_list(&ps);
        out.append(args.as_str());
        out.append(" }) => string;\n");
        proof {
            assert(out@ =~= "    '"@ + key@ + "': (args: { "@
                + args_list_s(dedup_first(spec_placeholders(value@))) + " }) => string;\n"@);
        }
    } else if starts_bracket && t.get_char(tn - 1) == ']' {
        out.append("    '");
        out.append(key);
        out.append("': string[];\n");
        proof {
            assert(out@ =~= "    '"@ + key@ + "': string[];\n"@);
        }
    } else {
        out.append("    '");
        out.append(key);
        out.append("': string;\n");
        proof {
            assert(out@ =~= "    '"@ + key@ + "': string;\n"@);
        }
    }
    out
}

/// Renders the TypeScript interface description of an aggregated table.
///
/// The first resource serves as the schema source for the `Lang` interface;
/// the `Langs` interface enumerates every resource identifier.  When
/// `gen_placeholder` is set, a scalar value carrying `{name}` placeholders
/// is rendered as a callable field taking one named string argument per
/// distinct placeholder, in first-occurrence order.
pub fn generate_defs(table: &AggregatedTable, gen_placeholder: bool) -> (out: String)
    ensures
        out@ == spec_generate(table.deep_entries(), gen_placeholder),
{
    let ghost rs = table.deep_entries();
    let mut out = String::new();
    out.append("/* eslint-disable */\nexport interface Lang {\n");
    if table.len() > 0 {
        let first = table.table_at(0);
        let ghost es = first.entry_views();
        let n = first.len();
        let mut i: usize = 0;
        let ghost header = out@;
        proof {
            assert(fields_s(es.take(0), gen_placeholder) =~= Seq::<char>::empty());
            assert(out@ + Seq::<char>::empty() =~= out@);
        }
        while i < n
            invariant
                n == first.entry_views().len(),
                es == first.entry_views(),
                i <= n,
                out@ == header + fields_s(es.take(i as int), gen_placeholder),
            decreases n - i,
        {
            let key = first.key_at(i);
            let value = first.value_at(i);
            let doc = doc_comment(value.as_str());
            let line = field_line(key.as_str(), value.as_str(), gen_placeholder);
            let ghost pre = out@;
            out.append(doc.as_str());
            out.append(line.as_str());
            proof {
                assert(es.take(i + 1).drop_last() =~= es.take(i as int));
                assert(es.take(i + 1).last() == es[i as int]);
                assert(out@ =~= pre + entry_block_s(es[i as int].0, es[i as int].1,
                    gen_placeholder));
                assert(pre + entry_block_s(es[i as int].0, es[i as int].1, gen_placeholder)
                    =~= header + (fields_s(es.take(i as int), gen_placeholder)
                        + entry_block_s(es[i as int].0, es[i as int].1, gen_placeholder)));
            }
            i = i + 1;
        }
        proof {
            assert(es.take(n as int) =~= es);
            assert(rs[0].1 == es);
        }
    }
    out.append("}\n\nexport interface Langs {\n");
    let ghost mid = out@;
    let n = table.len();
    let mut i: usize = 0;
    proof {
        assert(langs_s(resource_ids(rs).take(0)) =~= Seq::<char>::empty());
        assert(out@ + Seq::<char>::empty() =~= out@);
    }
    while i < n
        invariant
            n == table.resource_views().len(),
            rs == table.deep_entries(),
            rs.len() == n,
            i <= n,
            out@ == mid + langs_s(resource_ids(rs).take(i as int)),
        decreases n - i,
    {
        let id = table.id_at(i);
        let ghost pre = out@;
        out.append("    '");
        out.append(id.as_str());
        out.append("': Lang;\n");
        proof {
            let ids = resource_ids(rs);
            assert(ids.take(i + 1).drop_last() =~= ids.take(i as int));
            assert(ids.take(i + 1).last() == ids[i as int]);
            assert(id@ == ids[i as int]);
            assert(out@ =~= pre + ("    '"@ + ids[i as int] + "': Lang;\n"@));
            assert(pre + ("    '"@ + ids[i as int] + "': Lang;\n"@)
                =~= mid + (langs_s(ids.take(i as int)) + "    '"@ + ids[i as int] + "': Lang;\n"@));
        }
        i = i + 1;
    }
    out.append("}\n\nexport const langs: Langs;\n");
    proof {
        assert(resource_ids(rs).take(n as int) =~= resource_ids(rs));
        assert(out@ =~= spec_generate(rs, gen_placeholder));
    }
    out
}

} // verus!
