//! Commit message parser.
//!
//! One commit body is parsed line by line into an ordered mapping from a
//! lowercased category label to the list of bullet texts attached to it.
//! A line ending in `:` opens (or re-opens) a category; a line starting
//! with `"  - "` appends its remaining text to the currently open
//! category; every other line is ignored. A bullet with no open category
//! is a fatal parse error carrying the bullet's text.
//!
//! The mapping is kept as a vector of [`Section`] sorted strictly by
//! category name, so iteration order is lexicographic regardless of the
//! order in which categories appear in the input.

use vstd::prelude::*;

use crate::strutil::is_prefix_of;
use crate::strutil::lex_lt;
use crate::strutil::split_lines;
use crate::strutil::split_lines_spec;
use crate::strutil::str_eq;
use crate::strutil::str_lt;
use crate::strutil::str_starts_with;

verus! {

/// One category of changes: a lowercased label and the bullet texts
/// attached to it, in input order.
#[derive(Debug, Clone)]
pub struct Section {
    pub name: String,
    pub changes: Vec<String>,
}

/// What `str::to_lowercase` returns; the result depends on the characters
/// alone.
pub uninterp spec fn lower_of(s: Seq<char>) -> Seq<char>;

/// Relies on `str::to_lowercase` from std: the lowercase equivalent of the
/// string, which depends on its characters alone; an empty string stays
/// empty.
#[verifier::external_body]
pub(crate) fn lowercase(s: &str) -> (r: String)
    ensures
        r@ == lower_of(s@),
        s@.len() == 0 ==> r@.len() == 0,
{
    s.to_lowercase()
}

/// The bullet marker: two spaces, a hyphen, a space.
pub open spec fn bullet_prefix() -> Seq<char> {
    seq![' ', ' ', '-', ' ']
}

/// A line that opens a category: its last character is a colon.
pub open spec fn is_header_line(l: Seq<char>) -> bool {
    l.len() > 0 && l[l.len() - 1] == ':'
}

/// The category a header line opens: everything before the colon,
/// lowercased.
pub open spec fn header_label(l: Seq<char>) -> Seq<char> {
    lower_of(l.take(l.len() - 1))
}

/// A line that carries a bullet: it starts with the bullet marker.
pub open spec fn is_bullet_line(l: Seq<char>) -> bool {
    is_prefix_of(bullet_prefix(), l)
}

/// The text of a bullet line: everything after the marker, unchanged.
pub open spec fn bullet_text(l: Seq<char>) -> Seq<char> {
    l.skip(4)
}

/// The abstract section mapping: category name paired with its bullet
/// texts.
pub type SecModel = Seq<(Seq<char>, Seq<Seq<char>>)>;

/// The names of the mapping are strictly sorted, so each occurs once.
pub open spec fn sec_sorted(m: SecModel) -> bool {
    forall|i: int, j: int| 0 <= i < j < m.len() ==> lex_lt(m[i].0, m[j].0)
}

/// Index of `name` in the mapping, or -1 when absent.
pub open spec fn sec_index_of(m: SecModel, name: Seq<char>) -> int
    decreases m.len(),
{
    if m.len() == 0 {
        -1
    } else if m[0].0 == name {
        0
    } else if sec_index_of(m.drop_first(), name) == -1 {
        -1
    } else {
        sec_index_of(m.drop_first(), name) + 1
    }
}

pub open spec fn sec_contains(m: SecModel, name: Seq<char>) -> bool {
    sec_index_of(m, name) != -1
}

/// The mapping with an entry for `name` present: unchanged when the name
/// is already there, else with an empty entry inserted at its sorted
/// position.
pub open spec fn sec_open(m: SecModel, name: Seq<char>) -> SecModel
    decreases m.len(),
{
    if m.len() == 0 {
        seq![(name, Seq::<Seq<char>>::empty())]
    } else if m[0].0 == name {
        m
    } else if lex_lt(name, m[0].0) {
        seq![(name, Seq::<Seq<char>>::empty())] + m
    } else {
        seq![m[0]] + sec_open(m.drop_first(), name)
    }
}

/// The mapping with `text` appended to the entry for `name`; unchanged
/// when the name is absent.
pub open spec fn sec_append(m: SecModel, name: Seq<char>, text: Seq<char>) -> SecModel
    decreases m.len(),
{
    if m.len() == 0 {
        m
    } else if m[0].0 == name {
        seq![(m[0].0, m[0].1.push(text))] + m.drop_first()
    } else {
        seq![m[0]] + sec_append(m.drop_first(), name, text)
    }
}

/// The open category after one line: a header opens its label, every
/// other line leaves it alone.
pub open spec fn step_cur(cur: Option<Seq<char>>, l: Seq<char>) -> Option<Seq<char>> {
    if is_header_line(l) {
        Some(header_label(l))
    } else {
        cur
    }
}

/// One line applied to the parser state. A bullet with no open category
/// fails with the bullet's text.
pub open spec fn parse_line(m: SecModel, cur: Option<Seq<char>>, l: Seq<char>) -> Result<
    (SecModel, Option<Seq<char>>),
    Seq<char>,
> {
    if is_header_line(l) {
        Ok((sec_open(m, header_label(l)), Some(header_label(l))))
    } else if is_bullet_line(l) {
        match cur {
            Option::None => Err(bullet_text(l)),
            Option::Some(c) => Ok((sec_append(m, c, bullet_text(l)), cur)),
        }
    } else {
        Ok((m, cur))
    }
}

/// A sequence of lines folded over the parser state.
pub open spec fn parse_lines(m: SecModel, cur: Option<Seq<char>>, lines: Seq<Seq<char>>) -> Result<
    (SecModel, Option<Seq<char>>),
    Seq<char>,
>
    decreases lines.len(),
{
    if lines.len() == 0 {
        Ok((m, cur))
    } else {
        match parse_line(m, cur, lines[0]) {
            Err(e) => Err(e),
            Ok((m2, c2)) => parse_lines(m2, c2, lines.drop_first()),
        }
    }
}

/// One commit body applied to the parser state.
pub open spec fn parse_body_spec(m: SecModel, cur: Option<Seq<char>>, body: Seq<char>) -> Result<
    (SecModel, Option<Seq<char>>),
    Seq<char>,
> {
    parse_lines(m, cur, split_lines_spec(body))
}

/// The running parser state of one reference's walk.
#[derive(Debug)]
pub struct ParseState {
    pub sections: Vec<Section>,
    pub current: Option<String>,
}

impl ParseState {
    /// The abstract mapping this state holds.
    pub open spec fn model(&self) -> SecModel {
        Seq::new(self.sections.len() as nat, |i: int| (self.sections[i].name@, self.sections[i].changes.deep_view()))
    }

    /// The currently open category.
    pub open spec fn cur_model(&self) -> Option<Seq<char>> {
        match self.current {
            Option::None => Option::None,
            Option::Some(ref s) => Option::Some(s@),
        }
    }

    /// Well-formed: names strictly sorted.
    pub open spec fn wf(&self) -> bool {
        sec_sorted(self.model())
    }

    pub fn new() -> (r: ParseState)
        ensures
            r.wf(),
            r.model() == Seq::<(Seq<char>, Seq<Seq<char>>)>::empty(),
            r.cur_model() is None,
    {
        let r = ParseState { sections: Vec::new(), current: None };
        proof {
            assert(r.model() =~= Seq::<(Seq<char>, Seq<Seq<char>>)>::empty());
        }
        r
    }
}

/// `sec_open` leaves the mapping unchanged when `name` stands at `i` and
/// everything before `i` is smaller.
proof fn lemma_sec_open_found(m: SecModel, name: Seq<char>, i: int)
    requires
        0 <= i < m.len(),
        m[i].0 == name,
        forall|j: int| 0 <= j < i ==> lex_lt(m[j].0, name),
    ensures
        sec_open(m, name) == m,
    decreases i,
{
    if i == 0 {
    } else {
        crate::strutil::lemma_lex_irrefl(name);
        crate::strutil::lemma_lex_asym(m[0].0, name);
        assert(forall|j: int| 0 <= j < i - 1 ==> #[trigger] m.drop_first()[j].0 == m[j + 1].0);
        lemma_sec_open_found(m.drop_first(), name, i - 1);
        assert(sec_open(m, name) =~= seq![m[0]] + m.drop_first());
        assert(seq![m[0]] + m.drop_first() =~= m);
    }
}

/// `sec_open` inserts a fresh empty entry at position `i` when everything
/// before `i` is smaller and the entry at `i` (if any) is larger.
proof fn lemma_sec_open_insert(m: SecModel, name: Seq<char>, i: int)
    requires
        0 <= i <= m.len(),
        forall|j: int| 0 <= j < i ==> lex_lt(m[j].0, name),
        i < m.len() ==> lex_lt(name, m[i].0),
    ensures
        sec_open(m, name) == m.take(i) + seq![(name, Seq::<Seq<char>>::empty())] + m.skip(i),
    decreases i,
{
    crate::strutil::lemma_lex_irrefl(name);
    if i == 0 {
        if m.len() == 0 {
            assert(sec_open(m, name) =~= m.take(0) + seq![(name, Seq::<Seq<char>>::empty())]
                + m.skip(0));
        } else {
            assert(m[0].0 != name);
            assert(sec_open(m, name) =~= m.take(0) + seq![(name, Seq::<Seq<char>>::empty())]
                + m.skip(0));
        }
    } else {
        crate::strutil::lemma_lex_asym(m[0].0, name);
        assert(forall|j: int| 0 <= j < i - 1 ==> #[trigger] m.drop_first()[j].0 == m[j + 1].0);
        lemma_sec_open_insert(m.drop_first(), name, i - 1);
        assert(sec_open(m, name) =~= m.take(i) + seq![(name, Seq::<Seq<char>>::empty())] + m.skip(
            i,
        ));
    }
}

/// `sec_append` updates the first entry named `name` in place.
proof fn lemma_sec_append_at(m: SecModel, name: Seq<char>, text: Seq<char>, i: int)
    requires
        0 <= i < m.len(),
        m[i].0 == name,
        forall|j: int| 0 <= j < i ==> m[j].0 != name,
    ensures
        sec_append(m, name, text) == m.update(i, (name, m[i].1.push(text))),
    decreases i,
{
    if i == 0 {
        assert(sec_append(m, name, text) =~= m.update(0, (name, m[0].1.push(text))));
    } else {
        assert(forall|j: int| 0 <= j < i - 1 ==> #[trigger] m.drop_first()[j].0 == m[j + 1].0);
        lemma_sec_append_at(m.drop_first(), name, text, i - 1);
        assert(sec_append(m, name, text) =~= m.update(i, (name, m[i].1.push(text))));
    }
}

/// `sec_append` leaves the mapping unchanged when `name` is absent.
proof fn lemma_sec_append_absent(m: SecModel, name: Seq<char>, text: Seq<char>)
    requires
        forall|j: int| 0 <= j < m.len() ==> m[j].0 != name,
    ensures
        sec_append(m, name, text) == m,
    decreases m.len(),
{
    if m.len() > 0 {
        assert(forall|j: int| 0 <= j < m.len() - 1 ==> #[trigger] m.drop_first()[j].0 == m[j
            + 1].0);
        lemma_sec_append_absent(m.drop_first(), name, text);
        assert(sec_append(m, name, text) =~= m);
    }
}

/// First position at which `label` could stand in the sorted mapping:
/// everything before it is strictly smaller.
fn find_position(sections: &Vec<Section>, label: &str) -> (i: usize)
    ensures
        i <= sections.len(),
        forall|j: int| 0 <= j < i ==> lex_lt(sections[j].name@, label@),
        i < sections.len() ==> !lex_lt(sections[i as int].name@, label@),
{
    let n = sections.len();
    let mut i: usize = 0;
    while i < n && str_lt(sections[i].name.as_str(), label)
        invariant
            i <= n,
            n == sections.len(),
            forall|j: int| 0 <= j < i ==> lex_lt(sections[j].name@, label@),
        decreases n - i,
    {
        i = i + 1;
    }
    i
}

/// First entry named `name`, when there is one.
fn find_section(sections: &Vec<Section>, name: &str) -> (r: Option<usize>)
    ensures
        match r {
            Some(i) => i < sections.len() && sections[i as int].name@ == name@ && (forall|j: int|
                0 <= j < i ==> sections[j].name@ != name@),
            None => forall|j: int| 0 <= j < sections.len() ==> sections[j].name@ != name@,
        },
{
    let n = sections.len();
    let mut i: usize = 0;
    while i < n
        invariant
            i <= n,
            n == sections.len(),
            forall|j: int| 0 <= j < i ==> sections[j].name@ != name@,
        decreases n - i,
    {
        if str_eq(sections[i].name.as_str(), name) {
            return Some(i);
        }
        i = i + 1;
    }
    None
}

/// Opens (or re-opens) the category `label`, which must already be
/// lowercased, and makes it current.
pub fn open_section(st: &mut ParseState, label: String)
    requires
        old(st).wf(),
    ensures
        final(st).wf(),
        final(st).model() == sec_open(old(st).model(), label@),
        final(st).cur_model() == Some(label@),
{
    let ghost m = old(st).model();
    let i = find_position(&st.sections, label.as_str());
    let found = i < st.sections.len() && str_eq(st.sections[i].name.as_str(), label.as_str());
    if found {
        proof {
            lemma_sec_open_found(m, label@, i as int);
        }
        st.current = Some(label);
        proof {
            assert(st.model() =~~= m);
        }
    } else {
        proof {
            if i < st.sections.len() {
                crate::strutil::lemma_lex_connex(label@, m[i as int].0);
            }
            lemma_sec_open_insert(m, label@, i as int);
        }
        let fresh = Section { name: label.clone(), changes: Vec::new() };
        st.sections.insert(i, fresh);
        st.current = Some(label);
        proof {
            assert(st.model() =~~= m.take(i as int) + seq![(label@, Seq::<Seq<char>>::empty())]
                + m.skip(i as int));
            assert forall|p: int, q: int| 0 <= p < q < st.model().len() implies lex_lt(
                st.model()[p].0,
                st.model()[q].0,
            ) by {
                let sm = st.model();
                if p < i && q > i {
                    crate::strutil::lemma_lex_trans(sm[p].0, label@, sm[q].0);
                    if i < m.len() && q > i + 1 {
                        crate::strutil::lemma_lex_trans(label@, m[i as int].0, sm[q].0);
                    }
                }
                if p == i && q > i && i < m.len() && q > i + 1 {
                    crate::strutil::lemma_lex_trans(label@, m[i as int].0, sm[q].0);
                }
            }
        }
    }
}

/// Appends `text` to the currently open category. When that category is
/// somehow missing from the mapping, the mapping is left unchanged, as
/// `sec_append` says.
pub fn push_bullet(st: &mut ParseState, text: String)
    requires
        old(st).wf(),
        old(st).cur_model() is Some,
    ensures
        final(st).wf(),
        final(st).cur_model() == old(st).cur_model(),
        final(st).model() == sec_append(old(st).model(), old(st).cur_model()->Some_0, text@),
{
    let ghost m = old(st).model();
    let ghost name = old(st).cur_model()->Some_0;
    let cur: String = match &st.current {
        Some(c) => c.clone(),
        None => {
            proof {
                assert(false);
            }
            String::new()
        },
    };
    match find_section(&st.sections, cur.as_str()) {
        Some(i) => {
            proof {
                lemma_sec_append_at(m, name, text@, i as int);
            }
            let mut entry = st.sections.remove(i);
            entry.changes.push(text);
            st.sections.insert(i, entry);
            proof {
                assert(st.model() =~~= m.update(i as int, (name, m[i as int].1.push(text@))));
                assert forall|p: int, q: int| 0 <= p < q < st.model().len() implies lex_lt(
                    st.model()[p].0,
                    st.model()[q].0,
                ) by {
                    assert(st.model()[p].0 == m[p].0);
                    assert(st.model()[q].0 == m[q].0);
                }
            }
        },
        None => {
            proof {
                lemma_sec_append_absent(m, name, text@);
                assert(st.model() =~~= m);
            }
        },
    }
}

/// Parses one commit body into the running state. On a bullet with no
/// open category the state is abandoned and the bullet's text returned
/// as the error.
pub fn parse_commit_body(st: &mut ParseState, body: &str) -> (r: Result<(), String>)
    requires
        old(st).wf(),
    ensures
        final(st).wf(),
        r matches Ok(_) ==> parse_body_spec(old(st).model(), old(st).cur_model(), body@) == Ok::<
            (SecModel, Option<Seq<char>>),
            Seq<char>,
        >((final(st).model(), final(st).cur_model())),
        r matches Err(e) ==> parse_body_spec(old(st).model(), old(st).cur_model(), body@)
            == Err::<(SecModel, Option<Seq<char>>), Seq<char>>(e@),
{
    proof {
        reveal_strlit("  - ");
        assert(("  - ")@ =~= bullet_prefix());
    }
    let ghost m0 = old(st).model();
    let ghost c0 = old(st).cur_model();
    let lines = split_lines(body);
    let ghost lv = lines.deep_view();
    let mut k: usize = 0;
    proof {
        assert(lv.skip(0) =~= lv);
    }
    while k < lines.len()
        invariant
            k <= lines.len(),
            lines.deep_view() == lv,
            lv == split_lines_spec(body@),
            m0 == old(st).model(),
            c0 == old(st).cur_model(),
            st.wf(),
            parse_lines(m0, c0, lv) == parse_lines(st.model(), st.cur_model(), lv.skip(k as int)),
        decreases lines.len() - k,
    {
        proof {
            reveal_strlit("  - ");
            assert(("  - ")@ =~= bullet_prefix());
            assert(lv[k as int] == lines[k as int]@);
            assert(lv.skip(k as int)[0] == lv[k as int]);
            assert(lv.skip(k as int).drop_first() =~= lv.skip(k + 1));
        }
        let line = &lines[k];
        let n = line.as_str().unicode_len();
        if n > 0 && line.as_str().get_char(n - 1) == ':' {
            let raw = line.as_str().substring_char(0, n - 1);
            proof {
                assert(raw@ =~= lv[k as int].take(n - 1));
                assert(is_header_line(lv[k as int]));
            }
            let label = lowercase(raw);
            open_section(st, label);
        } else if str_starts_with(line.as_str(), "  - ") {
            proof {
                assert(is_bullet_line(lv[k as int]));
                assert(!is_header_line(lv[k as int]));
            }
            let text = line.as_str().substring_char(4, n).to_owned();
            proof {
                assert(text@ =~= bullet_text(lv[k as int]));
            }
            if st.current.is_none() {
                proof {
                    assert(parse_line(st.model(), st.cur_model(), lv[k as int]) == Err::<
                        (SecModel, Option<Seq<char>>),
                        Seq<char>,
                    >(text@));
                    assert(parse_lines(st.model(), st.cur_model(), lv.skip(k as int)) == Err::<
                        (SecModel, Option<Seq<char>>),
                        Seq<char>,
                    >(text@));
                }
                return Err(text);
            }
            push_bullet(st, text);
        } else {
            proof {
                assert(!is_bullet_line(lv[k as int]));
            }
        }
        k = k + 1;
    }
    proof {
        assert(lv.skip(lines.len() as int) =~= Seq::<Seq<char>>::empty());
    }
    Ok(())
}

} // verus!
