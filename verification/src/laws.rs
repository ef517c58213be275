//! Global properties of the parser and the extraction pipeline.
//!
//! These lemmas state, over the same spec functions the executable
//! contracts use, what holds of whole runs: where a bullet ends up, when
//! parsing must fail, and that extraction is a function of its snapshot.

use vstd::prelude::*;

use crate::parse::SecModel;
use crate::parse::bullet_text;
use crate::parse::header_label;
use crate::parse::is_bullet_line;
use crate::parse::is_header_line;
use crate::parse::parse_line;
use crate::parse::parse_lines;
use crate::parse::sec_append;
use crate::parse::sec_contains;
use crate::parse::sec_index_of;
use crate::parse::sec_open;
use crate::parse::step_cur;

verus! {

/// The mapping holds `text` under the category `name`.
pub open spec fn sec_has(m: SecModel, name: Seq<char>, text: Seq<char>) -> bool {
    sec_index_of(m, name) != -1 && m[sec_index_of(m, name)].1.contains(text)
}

/// The currently open category, when there is one, has an entry.
pub open spec fn cur_ok(m: SecModel, cur: Option<Seq<char>>) -> bool {
    cur matches Some(c) ==> sec_contains(m, c)
}

/// The open category after a sequence of lines.
pub open spec fn cur_after(cur: Option<Seq<char>>, lines: Seq<Seq<char>>) -> Option<Seq<char>>
    decreases lines.len(),
{
    if lines.len() == 0 {
        cur
    } else {
        cur_after(step_cur(cur, lines[0]), lines.drop_first())
    }
}

/// Index of the last header line, or -1 when there is none.
pub open spec fn last_header(lines: Seq<Seq<char>>) -> int
    decreases lines.len(),
{
    if lines.len() == 0 {
        -1
    } else if is_header_line(lines.last()) {
        lines.len() - 1
    } else {
        last_header(lines.drop_last())
    }
}

proof fn lemma_cur_after_snoc(cur: Option<Seq<char>>, lines: Seq<Seq<char>>, x: Seq<char>)
    ensures
        cur_after(cur, lines.push(x)) == step_cur(cur_after(cur, lines), x),
    decreases lines.len(),
{
    if lines.len() == 0 {
        assert(lines.push(x)[0] == x);
        assert(lines.push(x).drop_first() =~= lines);
        assert(cur_after(step_cur(cur, x), lines) == step_cur(cur, x));
    } else {
        assert(lines.push(x)[0] == lines[0]);
        assert(lines.push(x).drop_first() =~= lines.drop_first().push(x));
        lemma_cur_after_snoc(step_cur(cur, lines[0]), lines.drop_first(), x);
    }
}

/// The open category after a sequence of lines is the label of the
/// nearest preceding header, or the inherited one when no header stands
/// there.
pub proof fn lemma_cur_after_is_nearest_header(cur: Option<Seq<char>>, lines: Seq<Seq<char>>)
    ensures
        last_header(lines) == -1 ==> cur_after(cur, lines) == cur,
        last_header(lines) != -1 ==> 0 <= last_header(lines) < lines.len() && is_header_line(
            lines[last_header(lines)],
        ) && cur_after(cur, lines) == Some(header_label(lines[last_header(lines)])) && (forall|
            j: int,
        |
            last_header(lines) < j < lines.len() ==> !is_header_line(lines[j])),
    decreases lines.len(),
{
    if lines.len() > 0 {
        let dl = lines.drop_last();
        assert(lines =~= dl.push(lines.last()));
        lemma_cur_after_snoc(cur, dl, lines.last());
        lemma_cur_after_is_nearest_header(cur, dl);
        assert(forall|j: int| 0 <= j < dl.len() ==> #[trigger] lines[j] == dl[j]);
    }
}

proof fn lemma_sec_index_bounds(m: SecModel, a: Seq<char>)
    ensures
        sec_index_of(m, a) == -1 || (0 <= sec_index_of(m, a) < m.len() && m[sec_index_of(
            m,
            a,
        )].0 == a),
    decreases m.len(),
{
    if m.len() > 0 && m[0].0 != a {
        lemma_sec_index_bounds(m.drop_first(), a);
    }
}

proof fn lemma_cons_has(
    head: (Seq<char>, Seq<Seq<char>>),
    tail: SecModel,
    a: Seq<char>,
    b: Seq<char>,
)
    requires
        head.0 != a,
    ensures
        sec_has(seq![head] + tail, a, b) == sec_has(tail, a, b),
        sec_contains(seq![head] + tail, a) == sec_contains(tail, a),
{
    let r = seq![head] + tail;
    assert(r[0] == head);
    assert(r.drop_first() =~= tail);
    lemma_sec_index_bounds(tail, a);
    if sec_index_of(tail, a) != -1 {
        assert(sec_index_of(r, a) == sec_index_of(tail, a) + 1);
        assert(r.drop_first()[sec_index_of(tail, a)] == tail[sec_index_of(tail, a)]);
        assert(r[sec_index_of(tail, a) + 1] == r.drop_first()[sec_index_of(tail, a)]);
    }
}

proof fn lemma_sec_index_none(m: SecModel, a: Seq<char>)
    ensures
        sec_index_of(m, a) == -1 ==> (forall|j: int| 0 <= j < m.len() ==> (#[trigger] m[j]).0
            != a),
    decreases m.len(),
{
    if m.len() > 0 && m[0].0 != a {
        lemma_sec_index_none(m.drop_first(), a);
        lemma_sec_index_bounds(m.drop_first(), a);
        assert(forall|j: int| 1 <= j < m.len() ==> #[trigger] m[j] == m.drop_first()[j - 1]);
    }
}

proof fn lemma_sec_index_exists(m: SecModel, a: Seq<char>, i: int)
    requires
        0 <= i < m.len(),
        m[i].0 == a,
    ensures
        sec_index_of(m, a) != -1,
{
    lemma_sec_index_none(m, a);
}

/// `sec_open` keeps the mapping sorted, and adds no name but the opened
/// one.
proof fn lemma_sec_open_sorted(m: SecModel, name: Seq<char>)
    requires
        crate::parse::sec_sorted(m),
    ensures
        crate::parse::sec_sorted(sec_open(m, name)),
        forall|x: Seq<char>|
            #[trigger] sec_contains(sec_open(m, name), x) ==> x == name || sec_contains(m, x),
    decreases m.len(),
{
    let r = sec_open(m, name);
    if m.len() == 0 {
        assert forall|x: Seq<char>| #[trigger]
            sec_contains(r, x) implies x == name || sec_contains(m, x) by {
            lemma_sec_index_bounds(r, x);
        }
    } else if m[0].0 == name {
    } else if crate::strutil::lex_lt(name, m[0].0) {
        assert(r.drop_first() =~= m);
        assert forall|p: int, q: int| 0 <= p < q < r.len() implies crate::strutil::lex_lt(
            r[p].0,
            r[q].0,
        ) by {
            if p == 0 {
                assert(r[q] == m[q - 1]);
                if q >= 2 {
                    crate::strutil::lemma_lex_trans(name, m[0].0, m[q - 1].0);
                }
            } else {
                assert(r[p] == m[p - 1] && r[q] == m[q - 1]);
            }
        }
        assert forall|x: Seq<char>| #[trigger]
            sec_contains(r, x) implies x == name || sec_contains(m, x) by {
            lemma_sec_index_bounds(r, x);
            let i = sec_index_of(r, x);
            if i >= 1 {
                assert(r[i] == m[i - 1]);
                lemma_sec_index_exists(m, x, i - 1);
            }
        }
    } else {
        assert(forall|p: int, q: int|
            0 <= p < q < m.drop_first().len() ==> crate::strutil::lex_lt(
                (#[trigger] m.drop_first()[p]).0,
                (#[trigger] m.drop_first()[q]).0,
            ));
        lemma_sec_open_sorted(m.drop_first(), name);
        let rd = sec_open(m.drop_first(), name);
        assert(r[0] == m[0]);
        assert(r.drop_first() =~= rd);
        crate::strutil::lemma_lex_connex(name, m[0].0);
        assert(crate::strutil::lex_lt(m[0].0, name));
        assert forall|p: int, q: int| 0 <= p < q < r.len() implies crate::strutil::lex_lt(
            r[p].0,
            r[q].0,
        ) by {
            if p == 0 {
                assert(r[q] == rd[q - 1]);
                lemma_sec_index_exists(rd, rd[q - 1].0, q - 1);
                assert(sec_contains(sec_open(m.drop_first(), name), rd[q - 1].0));
                if rd[q - 1].0 == name {
                } else {
                    assert(sec_contains(m.drop_first(), rd[q - 1].0));
                    lemma_sec_index_bounds(m.drop_first(), rd[q - 1].0);
                    let w = sec_index_of(m.drop_first(), rd[q - 1].0);
                    assert(m.drop_first()[w] == m[w + 1]);
                    assert(crate::strutil::lex_lt(m[0].0, m[w + 1].0));
                }
            } else {
                assert(r[p] == rd[p - 1] && r[q] == rd[q - 1]);
            }
        }
        assert forall|x: Seq<char>| #[trigger]
            sec_contains(r, x) implies x == name || sec_contains(m, x) by {
            lemma_sec_index_bounds(r, x);
            let i = sec_index_of(r, x);
            if i == 0 {
                lemma_sec_index_exists(m, x, 0);
            } else {
                assert(r[i] == rd[i - 1]);
                lemma_sec_index_exists(rd, x, i - 1);
                assert(sec_contains(sec_open(m.drop_first(), name), x));
                if !(x == name) {
                    assert(sec_contains(m.drop_first(), x));
                    lemma_sec_index_bounds(m.drop_first(), x);
                    let w = sec_index_of(m.drop_first(), x);
                    assert(m.drop_first()[w] == m[w + 1]);
                    lemma_sec_index_exists(m, x, w + 1);
                }
            }
        }
    }
}

/// `sec_append` keeps every name in place, so it keeps the mapping
/// sorted.
proof fn lemma_sec_append_names(m: SecModel, name: Seq<char>, text: Seq<char>)
    ensures
        sec_append(m, name, text).len() == m.len(),
        forall|j: int| 0 <= j < m.len() ==> (#[trigger] sec_append(m, name, text)[j]).0 == m[j].0,
    decreases m.len(),
{
    let r = sec_append(m, name, text);
    if m.len() == 0 {
    } else if m[0].0 == name {
        assert(r.drop_first() =~= m.drop_first());
        assert(forall|j: int| 1 <= j < m.len() ==> (#[trigger] r[j]) == m[j]);
    } else {
        lemma_sec_append_names(m.drop_first(), name, text);
        let rd = sec_append(m.drop_first(), name, text);
        assert(r.drop_first() =~= rd);
        assert forall|j: int| 0 <= j < m.len() implies (#[trigger] r[j]).0 == m[j].0 by {
            if j >= 1 {
                assert(r[j] == rd[j - 1]);
                assert(m.drop_first()[j - 1] == m[j]);
            }
        }
    }
}

/// `sec_open` keeps every recorded bullet and records the opened name.
proof fn lemma_sec_open_has(m: SecModel, name: Seq<char>, a: Seq<char>, b: Seq<char>)
    requires
        crate::parse::sec_sorted(m),
    ensures
        sec_has(m, a, b) ==> sec_has(sec_open(m, name), a, b),
        sec_contains(sec_open(m, name), name),
        sec_contains(m, a) ==> sec_contains(sec_open(m, name), a),
    decreases m.len(),
{
    let r = sec_open(m, name);
    if m.len() == 0 {
        assert(r[0].0 == name);
        assert(sec_index_of(r, name) == 0);
    } else if m[0].0 == name {
        assert(sec_index_of(r, name) == 0);
    } else if crate::strutil::lex_lt(name, m[0].0) {
        assert(r.drop_first() =~= m);
        assert(sec_index_of(r, name) == 0);
        if sec_index_of(m, a) != -1 {
            if a == name {
                lemma_sec_index_bounds(m, a);
                let w = sec_index_of(m, a);
                if w == 0 {
                } else {
                    assert(crate::strutil::lex_lt(m[0].0, m[w].0));
                    crate::strutil::lemma_lex_asym(name, m[0].0);
                    crate::strutil::lemma_lex_trans(name, m[0].0, m[w].0);
                    crate::strutil::lemma_lex_irrefl(name);
                }
                assert(false);
            } else if m[0].0 == a {
                assert(r.drop_first()[0] == m[0]);
                assert(sec_index_of(r, a) == 1);
                assert(r[1] == m[0]);
            } else {
                lemma_sec_index_bounds(m, a);
                assert(sec_index_of(r, a) == sec_index_of(m, a) + 1);
                assert(r.drop_first()[sec_index_of(m, a)] == m[sec_index_of(m, a)]);
                assert(r[sec_index_of(m, a) + 1] == r.drop_first()[sec_index_of(m, a)]);
            }
        }
    } else {
        assert(forall|p: int, q: int|
            0 <= p < q < m.drop_first().len() ==> crate::strutil::lex_lt(
                (#[trigger] m.drop_first()[p]).0,
                (#[trigger] m.drop_first()[q]).0,
            ));
        lemma_sec_open_has(m.drop_first(), name, a, b);
        let rd = sec_open(m.drop_first(), name);
        assert(r[0] == m[0]);
        assert(r.drop_first() =~= rd);
        assert(r =~= seq![m[0]] + rd);
        assert(m =~= seq![m[0]] + m.drop_first());
        lemma_cons_has(m[0], rd, name, b);
        if m[0].0 == a {
            assert(sec_index_of(r, a) == 0);
            if sec_has(m, a, b) {
                assert(sec_index_of(m, a) == 0);
            }
        } else {
            lemma_cons_has(m[0], m.drop_first(), a, b);
            lemma_cons_has(m[0], rd, a, b);
        }
    }
}

/// `sec_append` keeps every recorded bullet, keeps every entry, and
/// records the appended one when its category exists.
proof fn lemma_sec_append_has(
    m: SecModel,
    name: Seq<char>,
    text: Seq<char>,
    a: Seq<char>,
    b: Seq<char>,
)
    ensures
        sec_has(m, a, b) ==> sec_has(sec_append(m, name, text), a, b),
        sec_contains(m, a) ==> sec_contains(sec_append(m, name, text), a),
        sec_contains(m, name) ==> sec_has(sec_append(m, name, text), name, text),
    decreases m.len(),
{
    let r = sec_append(m, name, text);
    if m.len() == 0 {
    } else if m[0].0 == name {
        assert(r[0].0 == m[0].0);
        assert(r.drop_first() =~= m.drop_first());
        assert(sec_index_of(r, name) == 0);
        assert(r[0].1 =~= m[0].1.push(text));
        assert(r[0].1.contains(text)) by {
            assert(r[0].1[m[0].1.len() as int] == text);
        }
        if sec_index_of(m, a) != -1 {
            if m[0].0 == a {
                if m[0].1.contains(b) {
                    let w = choose|w: int| 0 <= w < m[0].1.len() && m[0].1[w] == b;
                    assert(r[0].1[w] == b);
                }
            } else {
                lemma_sec_index_bounds(m, a);
                assert(sec_index_of(r, a) == sec_index_of(m, a));
                assert(r.drop_first()[sec_index_of(m, a) - 1] == m.drop_first()[sec_index_of(
                    m,
                    a,
                ) - 1]);
                assert(r[sec_index_of(m, a)] == r.drop_first()[sec_index_of(m, a) - 1]);
                assert(m[sec_index_of(m, a)] == m.drop_first()[sec_index_of(m, a) - 1]);
            }
        }
    } else {
        lemma_sec_append_has(m.drop_first(), name, text, a, b);
        let rd = sec_append(m.drop_first(), name, text);
        assert(r[0] == m[0]);
        assert(r.drop_first() =~= rd);
        assert(r =~= seq![m[0]] + rd);
        assert(m =~= seq![m[0]] + m.drop_first());
        lemma_cons_has(m[0], rd, name, text);
        lemma_cons_has(m[0], m.drop_first(), name, text);
        if m[0].0 == a {
            assert(sec_index_of(r, a) == 0);
            if sec_has(m, a, b) {
                assert(sec_index_of(m, a) == 0);
            }
        } else {
            lemma_cons_has(m[0], m.drop_first(), a, b);
            lemma_cons_has(m[0], rd, a, b);
        }
    }
}

/// One parsed line keeps every recorded bullet and the open-category
/// invariant.
proof fn lemma_parse_line_has(
    m: SecModel,
    cur: Option<Seq<char>>,
    l: Seq<char>,
    a: Seq<char>,
    b: Seq<char>,
)
    requires
        crate::parse::sec_sorted(m),
        cur_ok(m, cur),
        parse_line(m, cur, l) matches Ok(_),
    ensures
        ({
            let st = parse_line(m, cur, l)->Ok_0;
            &&& sec_has(m, a, b) ==> sec_has(st.0, a, b)
            &&& crate::parse::sec_sorted(st.0)
            &&& cur_ok(st.0, st.1)
            &&& st.1 == step_cur(cur, l)
        }),
{
    if is_header_line(l) {
        lemma_sec_open_has(m, header_label(l), a, b);
        lemma_sec_open_has(m, header_label(l), header_label(l), b);
        lemma_sec_open_sorted(m, header_label(l));
    } else if is_bullet_line(l) {
        let c = cur->Some_0;
        lemma_sec_append_has(m, c, bullet_text(l), a, b);
        lemma_sec_append_has(m, c, bullet_text(l), c, b);
        lemma_sec_append_names(m, c, bullet_text(l));
        let st = parse_line(m, cur, l)->Ok_0;
        assert(crate::parse::sec_sorted(st.0));
    }
}

/// A whole parsed run keeps every recorded bullet and the open-category
/// invariant.
proof fn lemma_parse_lines_has(
    m: SecModel,
    cur: Option<Seq<char>>,
    lines: Seq<Seq<char>>,
    a: Seq<char>,
    b: Seq<char>,
)
    requires
        crate::parse::sec_sorted(m),
        cur_ok(m, cur),
        parse_lines(m, cur, lines) matches Ok(_),
    ensures
        ({
            let st = parse_lines(m, cur, lines)->Ok_0;
            &&& sec_has(m, a, b) ==> sec_has(st.0, a, b)
            &&& crate::parse::sec_sorted(st.0)
            &&& cur_ok(st.0, st.1)
        }),
    decreases lines.len(),
{
    if lines.len() > 0 {
        lemma_parse_line_has(m, cur, lines[0], a, b);
        let st1 = parse_line(m, cur, lines[0])->Ok_0;
        lemma_parse_lines_has(st1.0, st1.1, lines.drop_first(), a, b);
    }
}

/// Parsing two line sequences one after the other, carrying the open
/// category across, equals parsing their concatenation: the accumulated
/// input of one reference's walk behaves as one document.
pub proof fn lemma_parse_lines_concat(
    m: SecModel,
    cur: Option<Seq<char>>,
    a: Seq<Seq<char>>,
    b: Seq<Seq<char>>,
)
    ensures
        parse_lines(m, cur, a + b) == match parse_lines(m, cur, a) {
            Err(e) => Err::<(SecModel, Option<Seq<char>>), Seq<char>>(e),
            Ok(st) => parse_lines(st.0, st.1, b),
        },
    decreases a.len(),
{
    if a.len() == 0 {
        assert(a + b =~= b);
    } else {
        assert((a + b)[0] == a[0]);
        assert((a + b).drop_first() =~= a.drop_first() + b);
        match parse_line(m, cur, a[0]) {
            Err(_) => {},
            Ok(st) => {
                lemma_parse_lines_concat(st.0, st.1, a.drop_first(), b);
            },
        }
    }
}

/// Every bullet line of a successfully parsed run is recorded under the
/// nearest preceding header's lowercased label — or under the inherited
/// open category when no header precedes it in these lines.
pub proof fn lemma_bullet_attribution(
    m: SecModel,
    cur: Option<Seq<char>>,
    lines: Seq<Seq<char>>,
    i: int,
)
    requires
        crate::parse::sec_sorted(m),
        cur_ok(m, cur),
        0 <= i < lines.len(),
        is_bullet_line(lines[i]),
        !is_header_line(lines[i]),
        parse_lines(m, cur, lines) matches Ok(_),
    ensures
        cur_after(cur, lines.take(i)) matches Some(c) && sec_has(
            parse_lines(m, cur, lines)->Ok_0.0,
            c,
            bullet_text(lines[i]),
        ),
    decreases lines.len(),
{
    lemma_parse_line_has(m, cur, lines[0], Seq::empty(), Seq::empty());
    let st1 = parse_line(m, cur, lines[0])->Ok_0;
    if i == 0 {
        let c = cur->Some_0;
        assert(lines.take(0) =~= Seq::<Seq<char>>::empty());
        lemma_sec_append_has(m, c, bullet_text(lines[0]), c, bullet_text(lines[0]));
        lemma_parse_lines_has(st1.0, st1.1, lines.drop_first(), c, bullet_text(lines[0]));
    } else {
        lemma_bullet_attribution(st1.0, st1.1, lines.drop_first(), i - 1);
        assert(lines.drop_first()[i - 1] == lines[i]);
        assert(lines.take(i)[0] == lines[0]);
        assert(lines.take(i).drop_first() =~= lines.drop_first().take(i - 1));
    }
}

/// A bullet line with no header before it, parsed from a state with no
/// open category, fails the whole run.
pub proof fn lemma_orphan_bullet_fails(m: SecModel, lines: Seq<Seq<char>>, i: int)
    requires
        0 <= i < lines.len(),
        is_bullet_line(lines[i]),
        !is_header_line(lines[i]),
        forall|j: int| 0 <= j < i ==> !is_header_line(lines[j]),
    ensures
        parse_lines(m, Option::None, lines) is Err,
    decreases i,
{
    if i == 0 {
    } else {
        if is_bullet_line(lines[0]) {
        } else {
            assert(forall|j: int| 0 <= j < i - 1 ==> #[trigger] lines.drop_first()[j] == lines[j
                + 1]);
            assert(lines.drop_first()[i - 1] == lines[i]);
            lemma_orphan_bullet_fails(m, lines.drop_first(), i - 1);
        }
    }
}

/// The extraction's result is a function of the snapshot alone: two
/// runs over one unchanged snapshot produce the same records and
/// diagnostics, so their serialized forms are identical.
pub proof fn lemma_extraction_deterministic(
    c: Seq<crate::graph::Commit>,
    ins: Seq<crate::extract::RefInput>,
    root: crate::extract::RootSpec,
    m1: Seq<crate::extract::ChangeModel>,
    s1: Seq<Seq<char>>,
    m2: Seq<crate::extract::ChangeModel>,
    s2: Seq<Seq<char>>,
)
    requires
        crate::extract::extract_spec(c, ins, root) == Ok::<
            (Seq<crate::extract::ChangeModel>, Seq<Seq<char>>),
            Seq<char>,
        >((m1, s1)),
        crate::extract::extract_spec(c, ins, root) == Ok::<
            (Seq<crate::extract::ChangeModel>, Seq<Seq<char>>),
            Seq<char>,
        >((m2, s2)),
    ensures
        m1 == m2,
        s1 == s2,
{
}

/// A non-release reference pointing straight at a release boundary
/// commit contributes nothing to the output: its walk is abandoned, not
/// emitted as an empty record.
pub proof fn lemma_tag_owned_contributes_nothing(
    c: Seq<crate::graph::Commit>,
    hidden: Seq<bool>,
    boundary: Seq<bool>,
    r: crate::extract::Reference,
)
    requires
        crate::extract::tag_owned_spec(hidden, boundary, r),
    ensures
        crate::extract::walk_change(c, hidden, boundary, r) == Ok::<
            Option<crate::extract::ChangeModel>,
            Seq<char>,
        >(Option::None),
{
}

} // verus!
