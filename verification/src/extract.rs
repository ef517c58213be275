//! Changelog extraction.
//!
//! Phase one classifies the repository's references — the trunk branch,
//! maintenance branches and version tags — and freezes the release
//! boundary index: the set of commits the release references point at.
//! Phase two walks each reference's first-parent ancestry, stopping at
//! the boundary, parses every consumed commit body, and assembles the
//! surviving section maps into Change records sorted by descending
//! timestamp.

use vstd::prelude::*;

use crate::graph::Commit;
use crate::parse::SecModel;
use crate::parse::Section;
use crate::strutil::is_prefix_of;

verus! {

/// One reference as read from the repository: its full name, the commit
/// it resolves to, and the annotation time when the reference is an
/// annotated tag.
#[derive(Debug)]
pub struct RefInput {
    pub name: String,
    pub target: usize,
    pub tag_time: Option<i64>,
}

/// One classified reference: a release (version tag) or a trunk-like
/// branch, with the timestamp its Change will carry.
#[derive(Debug)]
pub struct Reference {
    pub name: String,
    pub target: usize,
    pub is_release: bool,
    pub timestamp: i64,
}

/// The trunk branch.
pub open spec fn is_trunk_name(n: Seq<char>) -> bool {
    n == "refs/heads/main"@
}

/// A maintenance branch.
pub open spec fn is_maintenance_name(n: Seq<char>) -> bool {
    is_prefix_of("refs/heads/backport/"@, n)
}

/// A version tag.
pub open spec fn is_release_name(n: Seq<char>) -> bool {
    is_prefix_of("refs/tags/v"@, n)
}

/// The timestamp a reference carries: for a release the annotated-tag
/// time when available, in every other case the target commit's own time.
pub open spec fn ref_timestamp(inp: RefInput, c: Seq<Commit>, release: bool) -> i64 {
    if release {
        match inp.tag_time {
            Option::Some(t) => t,
            Option::None => c[inp.target as int].time,
        }
    } else {
        c[inp.target as int].time
    }
}

/// The classified form of one raw reference.
pub open spec fn to_reference(inp: RefInput, c: Seq<Commit>, release: bool) -> Reference {
    Reference {
        name: inp.name,
        target: inp.target,
        is_release: release,
        timestamp: ref_timestamp(inp, c, release),
    }
}

/// The three reference patterns, by classification group: 0 the trunk,
/// 1 the maintenance branches, 2 the version tags.
pub open spec fn name_matches(kind: int, n: Seq<char>) -> bool {
    if kind == 0 {
        is_trunk_name(n)
    } else if kind == 1 {
        is_maintenance_name(n)
    } else {
        is_release_name(n)
    }
}

/// The classified references of one group, in input order.
pub open spec fn sel_refs(ins: Seq<RefInput>, c: Seq<Commit>, kind: int) -> Seq<Reference>
    decreases ins.len(),
{
    if ins.len() == 0 {
        Seq::empty()
    } else {
        (if name_matches(kind, ins[0].name@) {
            seq![to_reference(ins[0], c, kind == 2)]
        } else {
            Seq::empty()
        }) + sel_refs(ins.drop_first(), c, kind)
    }
}

/// The classified reference list: the trunk first, then maintenance
/// branches, then version tags, keeping input order within each group.
pub open spec fn classify_spec(ins: Seq<RefInput>, c: Seq<Commit>) -> Seq<Reference> {
    sel_refs(ins, c, 0) + sel_refs(ins, c, 1) + sel_refs(ins, c, 2)
}

proof fn lemma_sel_refs_snoc(ins: Seq<RefInput>, c: Seq<Commit>, kind: int, x: RefInput)
    ensures
        sel_refs(ins.push(x), c, kind) == sel_refs(ins, c, kind) + (if name_matches(
            kind,
            x.name@,
        ) {
            seq![to_reference(x, c, kind == 2)]
        } else {
            Seq::<Reference>::empty()
        }),
    decreases ins.len(),
{
    let tail = if name_matches(kind, x.name@) {
        seq![to_reference(x, c, kind == 2)]
    } else {
        Seq::<Reference>::empty()
    };
    if ins.len() == 0 {
        assert(ins.push(x)[0] == x);
        assert(ins.push(x).drop_first() =~= ins);
        assert(sel_refs(ins.push(x), c, kind) == tail + sel_refs(ins, c, kind));
        assert(sel_refs(ins, c, kind) == Seq::<Reference>::empty());
        assert(tail + Seq::<Reference>::empty() =~= Seq::<Reference>::empty() + tail);
    } else {
        let head = if name_matches(kind, ins[0].name@) {
            seq![to_reference(ins[0], c, kind == 2)]
        } else {
            Seq::<Reference>::empty()
        };
        assert(ins.push(x)[0] == ins[0]);
        assert(ins.push(x).drop_first() =~= ins.drop_first().push(x));
        assert(sel_refs(ins.push(x), c, kind) == head + sel_refs(ins.drop_first().push(x), c, kind));
        lemma_sel_refs_snoc(ins.drop_first(), c, kind, x);
        assert(sel_refs(ins, c, kind) == head + sel_refs(ins.drop_first(), c, kind));
        assert(head + (sel_refs(ins.drop_first(), c, kind) + tail) =~= (head + sel_refs(
            ins.drop_first(),
            c,
            kind,
        )) + tail);
    }
}

/// Classifies the raw references: keeps the trunk branch, the maintenance
/// branches and the version tags, in that group order, resolving each
/// one's timestamp.
pub fn classify_refs(inputs: &Vec<RefInput>, commits: &Vec<Commit>) -> (r: Vec<Reference>)
    requires
        forall|k: int| 0 <= k < inputs.len() ==> (#[trigger] inputs[k].target) < commits.len(),
    ensures
        r@ == classify_spec(inputs@, commits@),
{
    let mut out: Vec<Reference> = Vec::new();
    let n = inputs.len();
    let mut k: usize = 0;
    proof {
        assert(inputs@.take(0) =~= Seq::<RefInput>::empty());
    }
    while k < n
        invariant
            k <= n,
            n == inputs.len(),
            forall|t: int| 0 <= t < inputs.len() ==> (#[trigger] inputs[t].target) < commits.len(),
            out@ == sel_refs(inputs@.take(k as int), commits@, 0),
        decreases n - k,
    {
        proof {
            assert(inputs@.take(k + 1) =~= inputs@.take(k as int).push(inputs@[k as int]));
            lemma_sel_refs_snoc(inputs@.take(k as int), commits@, 0, inputs@[k as int]);
        }
        if crate::strutil::str_eq(inputs[k].name.as_str(), "refs/heads/main") {
            out.push(make_reference(&inputs[k], commits, false));
        }
        k = k + 1;
    }
    let ghost part1 = out@;
    proof {
        assert(inputs@.take(n as int) =~= inputs@);
        assert(part1 == sel_refs(inputs@, commits@, 0));
    }
    let mut k: usize = 0;
    proof {
        assert(inputs@.take(0) =~= Seq::<RefInput>::empty());
        assert(out@ =~= part1 + sel_refs(inputs@.take(0), commits@, 1));
    }
    while k < n
        invariant
            k <= n,
            n == inputs.len(),
            forall|t: int| 0 <= t < inputs.len() ==> (#[trigger] inputs[t].target) < commits.len(),
            part1 == sel_refs(inputs@, commits@, 0),
            out@ == part1 + sel_refs(inputs@.take(k as int), commits@, 1),
        decreases n - k,
    {
        proof {
            assert(inputs@.take(k + 1) =~= inputs@.take(k as int).push(inputs@[k as int]));
            lemma_sel_refs_snoc(inputs@.take(k as int), commits@, 1, inputs@[k as int]);
        }
        let is_maint = crate::strutil::str_starts_with(
            inputs[k].name.as_str(),
            "refs/heads/backport/",
        );
        if is_maint {
            out.push(make_reference(&inputs[k], commits, false));
            proof {
                assert(out@ =~= part1 + sel_refs(inputs@.take(k + 1), commits@, 1));
            }
        }
        k = k + 1;
    }
    let ghost part2 = out@;
    proof {
        assert(inputs@.take(n as int) =~= inputs@);
        assert(part2 == sel_refs(inputs@, commits@, 0) + sel_refs(inputs@, commits@, 1));
    }
    let mut k: usize = 0;
    proof {
        assert(inputs@.take(0) =~= Seq::<RefInput>::empty());
        assert(out@ =~= part2 + sel_refs(inputs@.take(0), commits@, 2));
    }
    while k < n
        invariant
            k <= n,
            n == inputs.len(),
            forall|t: int| 0 <= t < inputs.len() ==> (#[trigger] inputs[t].target) < commits.len(),
            part2 == sel_refs(inputs@, commits@, 0) + sel_refs(inputs@, commits@, 1),
            out@ == part2 + sel_refs(inputs@.take(k as int), commits@, 2),
        decreases n - k,
    {
        proof {
            assert(inputs@.take(k + 1) =~= inputs@.take(k as int).push(inputs@[k as int]));
            lemma_sel_refs_snoc(inputs@.take(k as int), commits@, 2, inputs@[k as int]);
        }
        let is_rel = crate::strutil::str_starts_with(inputs[k].name.as_str(), "refs/tags/v");
        if is_rel {
            out.push(make_reference(&inputs[k], commits, true));
            proof {
                assert(out@ =~= part2 + sel_refs(inputs@.take(k + 1), commits@, 2));
            }
        }
        k = k + 1;
    }
    proof {
        assert(inputs@.take(n as int) =~= inputs@);
    }
    out
}

/// Builds the classified form of one raw reference, for the group the
/// caller has just matched.
fn make_reference(inp: &RefInput, commits: &Vec<Commit>, release: bool) -> (r: Reference)
    requires
        inp.target < commits.len(),
    ensures
        r == to_reference(*inp, commits@, release),
{
    let timestamp: i64 = if release {
        match inp.tag_time {
            Some(t) => t,
            None => commits[inp.target].time,
        }
    } else {
        commits[inp.target].time
    };
    Reference { name: inp.name.clone(), target: inp.target, is_release: release, timestamp }
}

/// The release boundary index: `t` is the target of some release
/// reference.
pub open spec fn in_boundary(refs: Seq<Reference>, t: int) -> bool {
    exists|k: int| 0 <= k < refs.len() && (#[trigger] refs[k]).is_release && refs[k].target == t
}

proof fn lemma_in_boundary_snoc(refs: Seq<Reference>, x: Reference, t: int)
    ensures
        in_boundary(refs.push(x), t) == (in_boundary(refs, t) || (x.is_release && x.target == t)),
{
    if in_boundary(refs.push(x), t) {
        let k = choose|k: int|
            0 <= k < refs.push(x).len() && (#[trigger] refs.push(x)[k]).is_release && refs.push(
                x,
            )[k].target == t;
        if k < refs.len() {
            assert(refs[k] == refs.push(x)[k]);
            assert(in_boundary(refs, t));
        }
    }
    if in_boundary(refs, t) {
        let k = choose|k: int|
            0 <= k < refs.len() && (#[trigger] refs[k]).is_release && refs[k].target == t;
        assert(refs.push(x)[k] == refs[k]);
        assert(in_boundary(refs.push(x), t));
    }
    if x.is_release && x.target == t {
        assert(refs.push(x)[refs.len() as int] == x);
        assert(in_boundary(refs.push(x), t));
    }
}

/// Freezes the release boundary index over `n` commits: one mark per
/// commit, true exactly for the targets of release references. Walks
/// consult this complete index, so no walk may begin before it is built.
pub fn boundary_marks(refs: &Vec<Reference>, n: usize) -> (r: Vec<bool>)
    requires
        forall|k: int| 0 <= k < refs.len() ==> (#[trigger] refs[k].target) < n,
    ensures
        r.len() == n,
        forall|t: int| 0 <= t < n ==> r[t] == in_boundary(refs@, t),
{
    let mut marked: Vec<bool> = vec![false; n];
    let m = refs.len();
    let mut k: usize = 0;
    proof {
        assert(refs@.take(0) =~= Seq::<Reference>::empty());
        assert forall|t: int| 0 <= t < n implies marked[t] == in_boundary(refs@.take(0), t) by {
            if in_boundary(refs@.take(0), t) {
                let w = choose|w: int|
                    0 <= w < refs@.take(0).len() && (#[trigger] refs@.take(0)[w]).is_release
                        && refs@.take(0)[w].target == t;
            }
        }
    }
    while k < m
        invariant
            k <= m,
            m == refs.len(),
            marked.len() == n,
            forall|j: int| 0 <= j < refs.len() ==> (#[trigger] refs[j].target) < n,
            forall|t: int| 0 <= t < n ==> marked[t] == in_boundary(refs@.take(k as int), t),
        decreases m - k,
    {
        let ghost mk0 = marked@;
        let ghost told = k as int;
        let is_rel = refs[k].is_release;
        if is_rel {
            let tgt = refs[k].target;
            marked[tgt] = true;
        }
        k = k + 1;
        proof {
            assert(refs@.take(k as int) =~= refs@.take(told).push(refs@[told]));
            assert forall|t: int| 0 <= t < n implies marked[t] == in_boundary(
                refs@.take(k as int),
                t,
            ) by {
                lemma_in_boundary_snoc(refs@.take(told), refs@[told], t);
            }
        }
    }
    proof {
        assert(refs@.take(m as int) =~= refs@);
    }
    marked
}

/// The first-parent ancestor indices one walk consumes, starting at `i`:
/// stop before a hidden commit (the supplied root's ancestry) and, past
/// the start, before a release boundary commit.
pub open spec fn walk_consumed(
    c: Seq<Commit>,
    hidden: Seq<bool>,
    boundary: Seq<bool>,
    i: int,
    first: bool,
) -> Seq<int>
    decreases i,
{
    if i < 0 || i >= c.len() {
        Seq::empty()
    } else if hidden[i] {
        Seq::empty()
    } else if !first && boundary[i] {
        Seq::empty()
    } else if c[i].parents@.len() > 0 && 0 <= (c[i].parents@[0] as int) < i {
        seq![i] + walk_consumed(c, hidden, boundary, c[i].parents@[0] as int, false)
    } else {
        seq![i]
    }
}

/// The parser state after feeding the bodies of the commits `ids`, in
/// order, into one running parse.
pub open spec fn parse_walk(
    c: Seq<Commit>,
    ids: Seq<int>,
    m: SecModel,
    cur: Option<Seq<char>>,
) -> Result<(SecModel, Option<Seq<char>>), Seq<char>>
    decreases ids.len(),
{
    if ids.len() == 0 {
        Ok((m, cur))
    } else if !(0 <= ids[0] < c.len()) {
        Ok((m, cur))
    } else {
        match crate::parse::parse_body_spec(m, cur, c[ids[0]].body@) {
            Err(e) => Err(e),
            Ok(st) => parse_walk(c, ids.drop_first(), st.0, st.1),
        }
    }
}

/// `n` with the prefix `p` removed when it carries it.
pub open spec fn strip_prefix_spec(p: Seq<char>, n: Seq<char>) -> Seq<char> {
    if is_prefix_of(p, n) {
        n.skip(p.len() as int)
    } else {
        n
    }
}

/// The display name of a reference: its namespace prefix stripped.
pub open spec fn short_name_spec(name: Seq<char>, is_release: bool) -> Seq<char> {
    if is_release {
        strip_prefix_spec("refs/tags/"@, name)
    } else {
        strip_prefix_spec("refs/heads/"@, name)
    }
}

/// One emitted change record: one interesting reference with at least one
/// parsed section.
#[derive(Debug)]
pub struct Change {
    pub is_release: bool,
    pub name: String,
    pub hash: String,
    pub timestamp: i64,
    pub sections: Vec<Section>,
}

/// The abstract content of a section list.
pub open spec fn secs_model(v: Seq<Section>) -> SecModel {
    Seq::new(v.len(), |i: int| (v[i].name@, v[i].changes.deep_view()))
}

/// What a walk produced for one reference.
#[derive(Debug)]
pub enum WalkOutcome {
    /// The reference contributes this record.
    Emitted(Change),
    /// A non-release reference pointing straight at a release boundary
    /// commit: its history is owned by that release; skipped, with a
    /// diagnostic.
    TagOwned,
    /// Commits were consumed but carried no sections: skipped, with a
    /// diagnostic.
    EmptyWalk,
    /// The reference lies entirely behind the supplied root: skipped
    /// silently.
    PastRoot,
}

/// A fatal extraction failure: no changelog is produced.
#[derive(Debug)]
pub enum ExtractError {
    /// The supplied root commit cannot be resolved.
    InvalidRoot,
    /// A bullet line stood before any category header; carries the
    /// bullet's text.
    MalformedTrailer(String),
}

/// A walk that is abandoned before it starts: the reference is not
/// itself a release, yet points at a release boundary commit.
pub open spec fn tag_owned_spec(hidden: Seq<bool>, boundary: Seq<bool>, r: Reference) -> bool {
    &&& !r.is_release
    &&& !hidden[r.target as int]
    &&& boundary[r.target as int]
}

/// The parse of everything one reference's walk consumes.
pub open spec fn walk_parse(
    c: Seq<Commit>,
    hidden: Seq<bool>,
    boundary: Seq<bool>,
    r: Reference,
) -> Result<(SecModel, Option<Seq<char>>), Seq<char>> {
    parse_walk(
        c,
        walk_consumed(c, hidden, boundary, r.target as int, true),
        Seq::empty(),
        Option::None,
    )
}

/// Walks one reference's first-parent ancestry against the frozen
/// boundary index, parsing every consumed commit body.
pub fn walk_reference(
    commits: &Vec<Commit>,
    hidden: &Vec<bool>,
    boundary: &Vec<bool>,
    r: &Reference,
) -> (res: Result<WalkOutcome, ExtractError>)
    requires
        crate::graph::graph_wf(commits@),
        r.target < commits.len(),
        hidden.len() == commits.len(),
        boundary.len() == commits.len(),
    ensures
        ({
            let ids = walk_consumed(commits@, hidden@, boundary@, r.target as int, true);
            let pr = walk_parse(commits@, hidden@, boundary@, *r);
            &&& tag_owned_spec(hidden@, boundary@, *r) ==> res == Ok::<WalkOutcome, ExtractError>(
                WalkOutcome::TagOwned,
            )
            &&& !tag_owned_spec(hidden@, boundary@, *r) ==> match pr {
                Err(e) => res matches Err(f) && f matches ExtractError::MalformedTrailer(t) && t@
                    == e,
                Ok(st) => {
                    if ids.len() == 0 {
                        res == Ok::<WalkOutcome, ExtractError>(WalkOutcome::PastRoot)
                    } else if st.0.len() == 0 {
                        res == Ok::<WalkOutcome, ExtractError>(WalkOutcome::EmptyWalk)
                    } else {
                        res matches Ok(o) && o matches WalkOutcome::Emitted(ch) && ch.is_release
                            == r.is_release && ch.name@ == short_name_spec(r.name@, r.is_release)
                            && ch.hash@ == commits@[r.target as int].hash@ && ch.timestamp
                            == r.timestamp && secs_model(ch.sections@) == st.0
                            && crate::parse::sec_sorted(secs_model(ch.sections@))
                    }
                },
            }
        }),
{
    let tip = r.target;
    if hidden[tip] {
        return Ok(WalkOutcome::PastRoot);
    }
    if !r.is_release && boundary[tip] {
        return Ok(WalkOutcome::TagOwned);
    }
    let mut st = crate::parse::ParseState::new();
    let mut idx = tip;
    let ghost mut gfirst: bool = true;
    proof {
        assert(st.model() =~= Seq::<(Seq<char>, Seq<Seq<char>>)>::empty());
    }
    loop
        invariant_except_break
            crate::graph::graph_wf(commits@),
            r.target < commits.len(),
            hidden.len() == commits.len(),
            boundary.len() == commits.len(),
            idx < commits.len(),
            !tag_owned_spec(hidden@, boundary@, *r),
            !hidden@[idx as int],
            gfirst ==> idx == r.target && (r.is_release || !boundary@[idx as int]),
            !gfirst ==> !boundary@[idx as int],
            st.wf(),
            parse_walk(
                commits@,
                walk_consumed(commits@, hidden@, boundary@, r.target as int, true),
                Seq::empty(),
                Option::None,
            ) == parse_walk(
                commits@,
                walk_consumed(commits@, hidden@, boundary@, idx as int, gfirst),
                st.model(),
                st.cur_model(),
            ),
        ensures
            st.wf(),
            parse_walk(
                commits@,
                walk_consumed(commits@, hidden@, boundary@, r.target as int, true),
                Seq::empty(),
                Option::None,
            ) == Ok::<(SecModel, Option<Seq<char>>), Seq<char>>((st.model(), st.cur_model())),
        decreases idx,
    {
        let ghost rem = walk_consumed(commits@, hidden@, boundary@, idx as int, gfirst);
        let ghost m0 = st.model();
        let ghost c0 = st.cur_model();
        proof {
            assert(rem.len() > 0 && rem[0] == idx as int);
            assert(rem.drop_first() =~= (if commits@[idx as int].parents@.len() > 0 && 0 <= (
            commits@[idx as int].parents@[0] as int) < idx as int {
                walk_consumed(
                    commits@,
                    hidden@,
                    boundary@,
                    commits@[idx as int].parents@[0] as int,
                    false,
                )
            } else {
                Seq::<int>::empty()
            }));
        }
        match crate::parse::parse_commit_body(&mut st, commits[idx].body.as_str()) {
            Err(t) => {
                proof {
                    assert(parse_walk(commits@, rem, m0, c0) == Err::<
                        (SecModel, Option<Seq<char>>),
                        Seq<char>,
                    >(t@));
                }
                return Err(ExtractError::MalformedTrailer(t));
            },
            Ok(_) => {},
        }
        if commits[idx].parents.len() == 0 {
            proof {
                assert(0 <= rem[0] < commits@.len());
                assert(crate::parse::parse_body_spec(m0, c0, commits@[idx as int].body@) == Ok::<
                    (SecModel, Option<Seq<char>>),
                    Seq<char>,
                >((st.model(), st.cur_model())));
                assert(parse_walk(commits@, rem, m0, c0) == parse_walk(
                    commits@,
                    rem.drop_first(),
                    st.model(),
                    st.cur_model(),
                ));
                assert(rem.drop_first() =~= Seq::<int>::empty());
                assert(parse_walk(commits@, rem.drop_first(), st.model(), st.cur_model()) == Ok::<
                    (SecModel, Option<Seq<char>>),
                    Seq<char>,
                >((st.model(), st.cur_model())));
            }
            break;
        }
        let p = commits[idx].parents[0];
        assert((commits@[idx as int].parents@[0] as int) < idx as int);
        if hidden[p] {
            proof {
                assert(walk_consumed(commits@, hidden@, boundary@, p as int, false)
                    =~= Seq::<int>::empty());
                assert(parse_walk(commits@, rem, m0, c0) == Ok::<
                    (SecModel, Option<Seq<char>>),
                    Seq<char>,
                >((st.model(), st.cur_model())));
            }
            break;
        }
        if boundary[p] {
            proof {
                assert(walk_consumed(commits@, hidden@, boundary@, p as int, false)
                    =~= Seq::<int>::empty());
                assert(parse_walk(commits@, rem, m0, c0) == Ok::<
                    (SecModel, Option<Seq<char>>),
                    Seq<char>,
                >((st.model(), st.cur_model())));
            }
            break;
        }
        idx = p;
        proof {
            gfirst = false;
        }
    }
    let ghost m = st.model();
    if st.sections.len() == 0 {
        proof {
            assert(walk_consumed(commits@, hidden@, boundary@, r.target as int, true).len() > 0);
            assert(m.len() == 0);
        }
        return Ok(WalkOutcome::EmptyWalk);
    }
    let short: String = if r.is_release {
        match crate::strutil::strip_prefix_string(r.name.as_str(), "refs/tags/") {
            Some(t) => t,
            None => r.name.clone(),
        }
    } else {
        match crate::strutil::strip_prefix_string(r.name.as_str(), "refs/heads/") {
            Some(t) => t,
            None => r.name.clone(),
        }
    };
    let ch = Change {
        is_release: r.is_release,
        name: short,
        hash: commits[tip].hash.clone(),
        timestamp: r.timestamp,
        sections: st.sections,
    };
    proof {
        assert(secs_model(ch.sections@) =~= m);
    }
    Ok(WalkOutcome::Emitted(ch))
}

/// A change's abstract content: release flag, display name, hash,
/// timestamp, section mapping.
pub type ChangeModel = (bool, Seq<char>, Seq<char>, i64, SecModel);

pub open spec fn change_model(ch: Change) -> ChangeModel {
    (ch.is_release, ch.name@, ch.hash@, ch.timestamp, secs_model(ch.sections@))
}

pub open spec fn changes_model(v: Seq<Change>) -> Seq<ChangeModel> {
    Seq::new(v.len(), |i: int| change_model(v[i]))
}

/// Stable descending insertion: `x` goes after every element whose
/// timestamp is at least its own.
pub open spec fn insert_desc(s: Seq<Change>, x: Change) -> Seq<Change>
    decreases s.len(),
{
    if s.len() == 0 {
        seq![x]
    } else if s[0].timestamp >= x.timestamp {
        seq![s[0]] + insert_desc(s.drop_first(), x)
    } else {
        seq![x] + s
    }
}

/// Stable sort by descending timestamp; ties keep encounter order.
pub open spec fn sort_desc(s: Seq<Change>) -> Seq<Change>
    decreases s.len(),
{
    if s.len() == 0 {
        s
    } else {
        insert_desc(sort_desc(s.drop_last()), s.last())
    }
}

/// The same insertion at the model level.
pub open spec fn insert_desc_m(s: Seq<ChangeModel>, x: ChangeModel) -> Seq<ChangeModel>
    decreases s.len(),
{
    if s.len() == 0 {
        seq![x]
    } else if s[0].3 >= x.3 {
        seq![s[0]] + insert_desc_m(s.drop_first(), x)
    } else {
        seq![x] + s
    }
}

/// The same sort at the model level.
pub open spec fn sort_desc_m(s: Seq<ChangeModel>) -> Seq<ChangeModel>
    decreases s.len(),
{
    if s.len() == 0 {
        s
    } else {
        insert_desc_m(sort_desc_m(s.drop_last()), s.last())
    }
}

/// Timestamps never increase along the sequence.
pub open spec fn sorted_desc(s: Seq<Change>) -> bool {
    forall|i: int, j: int| 0 <= i < j < s.len() ==> s[i].timestamp >= s[j].timestamp
}

proof fn lemma_insert_desc_at(s: Seq<Change>, x: Change, pos: int)
    requires
        0 <= pos <= s.len(),
        forall|j: int| 0 <= j < pos ==> s[j].timestamp >= x.timestamp,
        pos < s.len() ==> s[pos].timestamp < x.timestamp,
    ensures
        insert_desc(s, x) == s.take(pos) + seq![x] + s.skip(pos),
    decreases pos,
{
    if pos == 0 {
        if s.len() == 0 {
            assert(insert_desc(s, x) =~= s.take(0) + seq![x] + s.skip(0));
        } else {
            assert(insert_desc(s, x) =~= s.take(0) + seq![x] + s.skip(0));
        }
    } else {
        assert(forall|j: int| 0 <= j < pos - 1 ==> #[trigger] s.drop_first()[j].timestamp
            == s[j + 1].timestamp);
        lemma_insert_desc_at(s.drop_first(), x, pos - 1);
        assert(insert_desc(s, x) == seq![s[0]] + insert_desc(s.drop_first(), x));
        assert(insert_desc(s, x) =~= s.take(pos) + seq![x] + s.skip(pos));
    }
}

proof fn lemma_insert_desc_sorted(s: Seq<Change>, x: Change)
    requires
        sorted_desc(s),
    ensures
        sorted_desc(insert_desc(s, x)),
        insert_desc(s, x).len() == s.len() + 1,
    decreases s.len(),
{
    if s.len() == 0 {
    } else if s[0].timestamp >= x.timestamp {
        assert(forall|i: int, j: int|
            0 <= i < j < s.drop_first().len() ==> #[trigger] s.drop_first()[i].timestamp
                >= #[trigger] s.drop_first()[j].timestamp);
        lemma_insert_desc_sorted(s.drop_first(), x);
        let r = insert_desc(s, x);
        let t = insert_desc(s.drop_first(), x);
        assert(r =~= seq![s[0]] + t);
        assert forall|i: int, j: int| 0 <= i < j < r.len() implies r[i].timestamp
            >= r[j].timestamp by {
            if i == 0 {
                lemma_insert_desc_head(s.drop_first(), x, j - 1);
                assert(r[j] == t[j - 1]);
            } else {
                assert(r[i] == t[i - 1] && r[j] == t[j - 1]);
            }
        }
    } else {
        let r = insert_desc(s, x);
        assert(r =~= seq![x] + s);
        assert forall|i: int, j: int| 0 <= i < j < r.len() implies r[i].timestamp
            >= r[j].timestamp by {
            if i == 0 {
                assert(r[j] == s[j - 1]);
                if j >= 2 {
                    assert(s[0].timestamp >= s[j - 1].timestamp);
                }
            }
        }
    }
}

/// Every element of a descending insertion has a timestamp bounded by
/// the head of the list or the inserted element.
proof fn lemma_insert_desc_head(s: Seq<Change>, x: Change, k: int)
    requires
        sorted_desc(s),
        0 <= k < insert_desc(s, x).len(),
    ensures
        insert_desc(s, x)[k].timestamp <= x.timestamp || (s.len() > 0 && insert_desc(
            s,
            x,
        )[k].timestamp <= s[0].timestamp),
    decreases s.len(),
{
    if s.len() == 0 {
    } else if s[0].timestamp >= x.timestamp {
        if k > 0 {
            assert(forall|i: int, j: int|
                0 <= i < j < s.drop_first().len() ==> #[trigger] s.drop_first()[i].timestamp
                    >= #[trigger] s.drop_first()[j].timestamp);
            lemma_insert_desc_head(s.drop_first(), x, k - 1);
            assert(insert_desc(s, x)[k] == insert_desc(s.drop_first(), x)[k - 1]);
        }
    } else {
        assert(insert_desc(s, x) =~= seq![x] + s);
    }
}

/// Every element of a descending insertion is the inserted one or one
/// of the list's own.
proof fn lemma_insert_desc_mem(s: Seq<Change>, x: Change)
    ensures
        forall|k: int|
            0 <= k < insert_desc(s, x).len() ==> insert_desc(s, x)[k] == x || s.contains(
                insert_desc(s, x)[k],
            ),
    decreases s.len(),
{
    let r = insert_desc(s, x);
    if s.len() == 0 {
    } else if s[0].timestamp >= x.timestamp {
        lemma_insert_desc_mem(s.drop_first(), x);
        let t = insert_desc(s.drop_first(), x);
        assert(r =~= seq![s[0]] + t);
        assert forall|k: int| 0 <= k < r.len() implies r[k] == x || s.contains(r[k]) by {
            if k == 0 {
                assert(s[0] == r[k]);
                assert(s.contains(r[k]));
            } else {
                assert(r[k] == t[k - 1]);
                if t[k - 1] != x {
                    assert(s.drop_first().contains(t[k - 1]));
                    let w = choose|w: int|
                        0 <= w < s.drop_first().len() && s.drop_first()[w] == t[k - 1];
                    assert(s[w + 1] == t[k - 1]);
                    assert(s.contains(r[k]));
                }
            }
        }
    } else {
        assert(r =~= seq![x] + s);
        assert forall|k: int| 0 <= k < r.len() implies r[k] == x || s.contains(r[k]) by {
            if k >= 1 {
                assert(r[k] == s[k - 1]);
                assert(s.contains(r[k]));
            }
        }
    }
}

/// Every element of the sorted list is one of the input's own.
proof fn lemma_sort_desc_mem(s: Seq<Change>)
    ensures
        forall|k: int| 0 <= k < sort_desc(s).len() ==> s.contains(#[trigger] sort_desc(s)[k]),
    decreases s.len(),
{
    if s.len() > 0 {
        let dl = s.drop_last();
        lemma_sort_desc_mem(dl);
        lemma_insert_desc_mem(sort_desc(dl), s.last());
        let r = sort_desc(s);
        assert forall|k: int| 0 <= k < r.len() implies s.contains(#[trigger] r[k]) by {
            if r[k] == s.last() {
                assert(s[s.len() - 1] == r[k]);
                assert(s.contains(r[k]));
            } else {
                assert(sort_desc(dl).contains(r[k]));
                let w = choose|w: int| 0 <= w < sort_desc(dl).len() && sort_desc(dl)[w] == r[k];
                assert(dl.contains(sort_desc(dl)[w]));
                let u = choose|u: int| 0 <= u < dl.len() && dl[u] == r[k];
                assert(s[u] == dl[u]);
                assert(s.contains(r[k]));
            }
        }
    }
}

proof fn lemma_sort_desc_sorted(s: Seq<Change>)
    ensures
        sorted_desc(sort_desc(s)),
        sort_desc(s).len() == s.len(),
    decreases s.len(),
{
    if s.len() > 0 {
        lemma_sort_desc_sorted(s.drop_last());
        lemma_insert_desc_sorted(sort_desc(s.drop_last()), s.last());
    }
}

/// The exec sort and the model sort agree.
proof fn lemma_insert_desc_model(s: Seq<Change>, x: Change)
    ensures
        changes_model(insert_desc(s, x)) == insert_desc_m(changes_model(s), change_model(x)),
    decreases s.len(),
{
    if s.len() == 0 {
        assert(changes_model(insert_desc(s, x)) =~= insert_desc_m(
            changes_model(s),
            change_model(x),
        ));
    } else {
        assert(changes_model(s)[0] == change_model(s[0]));
        lemma_insert_desc_model(s.drop_first(), x);
        assert(changes_model(s.drop_first()) =~= changes_model(s).drop_first());
        if s[0].timestamp >= x.timestamp {
            assert(changes_model(insert_desc(s, x)) =~= insert_desc_m(
                changes_model(s),
                change_model(x),
            ));
        } else {
            assert(changes_model(insert_desc(s, x)) =~= insert_desc_m(
                changes_model(s),
                change_model(x),
            ));
        }
    }
}

proof fn lemma_sort_desc_model(s: Seq<Change>)
    ensures
        changes_model(sort_desc(s)) == sort_desc_m(changes_model(s)),
    decreases s.len(),
{
    if s.len() == 0 {
        assert(changes_model(sort_desc(s)) =~= sort_desc_m(changes_model(s)));
    } else {
        lemma_sort_desc_model(s.drop_last());
        lemma_insert_desc_model(sort_desc(s.drop_last()), s.last());
        assert(changes_model(s.drop_last()) =~= changes_model(s).drop_last());
        assert(changes_model(s).last() == change_model(s.last()));
    }
}

/// Sorts the records by descending timestamp; ties keep their encounter
/// order (a stable sort).
pub fn sort_changes(v: Vec<Change>) -> (r: Vec<Change>)
    ensures
        r@ == sort_desc(v@),
        sorted_desc(r@),
        forall|k: int| 0 <= k < r@.len() ==> v@.contains(#[trigger] r@[k]),
{
    proof {
        lemma_sort_desc_mem(v@);
    }
    let ghost orig = v@;
    let mut input = v;
    let total = input.len();
    proof {
        assert(orig.len() == total);
    }
    let mut out: Vec<Change> = Vec::new();
    let mut i: usize = 0;
    proof {
        assert(orig.take(0) =~= Seq::<Change>::empty());
        assert(sort_desc(orig.take(0)) =~= Seq::<Change>::empty());
        lemma_sort_desc_sorted(orig.take(0));
    }
    while input.len() > 0
        invariant
            i <= orig.len(),
            orig.len() <= usize::MAX,
            input@ =~= orig.skip(i as int),
            out@ == sort_desc(orig.take(i as int)),
            sorted_desc(out@),
        decreases input.len(),
    {
        let x = input.remove(0);
        proof {
            assert(orig.skip(i as int)[0] == orig[i as int]);
            assert(input@ =~= orig.skip(i + 1));
        }
        let mut pos: usize = 0;
        let n = out.len();
        while pos < n && out[pos].timestamp >= x.timestamp
            invariant
                pos <= n,
                n == out.len(),
                forall|j: int| 0 <= j < pos ==> (#[trigger] out[j].timestamp) >= x.timestamp,
            decreases n - pos,
        {
            pos = pos + 1;
        }
        proof {
            lemma_insert_desc_at(out@, x, pos as int);
            lemma_insert_desc_sorted(out@, x);
            assert(orig.take(i + 1) =~= orig.take(i as int).push(orig[i as int]));
            assert(orig.take(i + 1).drop_last() =~= orig.take(i as int));
            assert(sort_desc(orig.take(i + 1)) == insert_desc(sort_desc(orig.take(i as int)), x));
        }
        out.insert(pos, x);
        proof {
            assert(out@ =~= sort_desc(orig.take(i as int)).take(pos as int) + seq![x] + sort_desc(
                orig.take(i as int),
            ).skip(pos as int));
        }
        i = i + 1;
    }
    proof {
        assert(orig.take(orig.len() as int) =~= orig);
    }
    out
}

/// How the caller supplied the optional root commit: absent, resolved to
/// a snapshot index, or supplied but impossible to resolve.
#[derive(Debug, Clone, Copy)]
pub enum RootSpec {
    NoRoot,
    At(usize),
    Unresolved,
}

/// The root resolves within this snapshot.
pub open spec fn root_valid(c: Seq<Commit>, root: RootSpec) -> bool {
    match root {
        RootSpec::NoRoot => true,
        RootSpec::At(i) => (i as int) < c.len(),
        RootSpec::Unresolved => false,
    }
}

/// The commits every walk must stop before: the root's ancestry, or
/// nothing when no root was supplied.
pub open spec fn hidden_spec(c: Seq<Commit>, root: RootSpec) -> Seq<bool> {
    match root {
        RootSpec::At(i) => Seq::new(c.len(), |j: int| crate::graph::is_ancestor_of(c, i as int, j)),
        _ => Seq::new(c.len(), |j: int| false),
    }
}

/// The frozen boundary index as a mark per commit.
pub open spec fn boundary_spec(refs: Seq<Reference>, n: int) -> Seq<bool> {
    Seq::new(n as nat, |t: int| in_boundary(refs, t))
}

/// The record one reference contributes, if any; an error aborts the
/// whole extraction.
pub open spec fn walk_change(
    c: Seq<Commit>,
    hidden: Seq<bool>,
    boundary: Seq<bool>,
    r: Reference,
) -> Result<Option<ChangeModel>, Seq<char>> {
    if tag_owned_spec(hidden, boundary, r) {
        Ok(Option::None)
    } else {
        match walk_parse(c, hidden, boundary, r) {
            Err(e) => Err(e),
            Ok(st) => if st.0.len() == 0 {
                Ok(Option::None)
            } else {
                Ok(
                    Option::Some(
                        (
                            r.is_release,
                            short_name_spec(r.name@, r.is_release),
                            c[r.target as int].hash@,
                            r.timestamp,
                            st.0,
                        ),
                    ),
                )
            },
        }
    }
}

/// The diagnostic one reference leaves, if any: its display name, when
/// the walk was abandoned as tag-owned or consumed commits without
/// finding sections.
pub open spec fn walk_diag(
    c: Seq<Commit>,
    hidden: Seq<bool>,
    boundary: Seq<bool>,
    r: Reference,
) -> Option<Seq<char>> {
    if tag_owned_spec(hidden, boundary, r) {
        Option::Some(short_name_spec(r.name@, r.is_release))
    } else {
        match walk_parse(c, hidden, boundary, r) {
            Err(_) => Option::None,
            Ok(st) => if st.0.len() == 0 && walk_consumed(
                c,
                hidden,
                boundary,
                r.target as int,
                true,
            ).len() > 0 {
                Option::Some(short_name_spec(r.name@, r.is_release))
            } else {
                Option::None
            },
        }
    }
}

/// The records and diagnostics of all walks, in reference order; the
/// first malformed trailer aborts everything.
pub open spec fn collect_spec(
    c: Seq<Commit>,
    hidden: Seq<bool>,
    boundary: Seq<bool>,
    refs: Seq<Reference>,
) -> Result<(Seq<ChangeModel>, Seq<Seq<char>>), Seq<char>>
    decreases refs.len(),
{
    if refs.len() == 0 {
        Ok((Seq::empty(), Seq::empty()))
    } else {
        match walk_change(c, hidden, boundary, refs[0]) {
            Err(e) => Err(e),
            Ok(opt) => match collect_spec(c, hidden, boundary, refs.drop_first()) {
                Err(e) => Err(e),
                Ok(rest) => Ok(
                    (
                        (match opt {
                            Option::Some(cm) => seq![cm],
                            Option::None => Seq::<ChangeModel>::empty(),
                        }) + rest.0,
                        (match walk_diag(c, hidden, boundary, refs[0]) {
                            Option::Some(d) => seq![d],
                            Option::None => Seq::<Seq<char>>::empty(),
                        }) + rest.1,
                    ),
                ),
            },
        }
    }
}

/// The assembled changelog: the sorted records, and the display names of
/// the references whose walks were skipped with a diagnostic.
#[derive(Debug)]
pub struct ExtractOutput {
    pub changes: Vec<Change>,
    pub skipped: Vec<String>,
}

proof fn lemma_sel_refs_targets(ins: Seq<RefInput>, c: Seq<Commit>, kind: int, n: int)
    requires
        forall|k: int| 0 <= k < ins.len() ==> ((#[trigger] ins[k]).target as int) < n,
    ensures
        forall|k: int|
            0 <= k < sel_refs(ins, c, kind).len() ==> ((#[trigger] sel_refs(ins, c, kind)[k]).target
                as int) < n,
    decreases ins.len(),
{
    if ins.len() > 0 {
        assert(forall|k: int| 0 <= k < ins.len() - 1 ==> #[trigger] ins.drop_first()[k]
            == ins[k + 1]);
        lemma_sel_refs_targets(ins.drop_first(), c, kind, n);
        let r = sel_refs(ins, c, kind);
        let rest = sel_refs(ins.drop_first(), c, kind);
        assert forall|k: int| 0 <= k < r.len() implies ((#[trigger] r[k]).target as int) < n by {
            if name_matches(kind, ins[0].name@) {
                if k == 0 {
                } else {
                    assert(r[k] == rest[k - 1]);
                }
            } else {
                assert(r[k] == rest[k]);
            }
        }
    }
}

/// The display name of a reference: its branch or tag namespace prefix
/// stripped.
pub fn short_name(name: &str, is_release: bool) -> (r: String)
    ensures
        r@ == short_name_spec(name@, is_release),
{
    if is_release {
        match crate::strutil::strip_prefix_string(name, "refs/tags/") {
            Some(t) => t,
            None => name.to_owned(),
        }
    } else {
        match crate::strutil::strip_prefix_string(name, "refs/heads/") {
            Some(t) => t,
            None => name.to_owned(),
        }
    }
}

/// Extracts the changelog of one repository snapshot: classifies the
/// references, freezes the release boundary index, walks every
/// reference, and sorts the surviving records by descending timestamp.
///
/// An unresolvable root, or one outside the snapshot, is fatal before any
/// walk; so is a malformed trailer in any consumed commit body.
pub fn extract_changelog(commits: &Vec<Commit>, inputs: &Vec<RefInput>, root: RootSpec) -> (res:
    Result<ExtractOutput, ExtractError>)
    requires
        crate::graph::graph_wf(commits@),
        forall|k: int| 0 <= k < inputs.len() ==> ((#[trigger] inputs[k]).target) < commits.len(),
    ensures
        !root_valid(commits@, root) ==> (res matches Err(e) && e is InvalidRoot),
        res matches Ok(out) ==> forall|i: int|
            0 <= i < out.changes@.len() ==> crate::parse::sec_sorted(
                secs_model((#[trigger] out.changes@[i]).sections@),
            ),
        root_valid(commits@, root) ==> match extract_spec(commits@, inputs@, root) {
            Err(e) => res matches Err(f) && f matches ExtractError::MalformedTrailer(t) && t@
                == e,
            Ok(pair) => res matches Ok(out) && changes_model(out.changes@) == pair.0
                && out.skipped.deep_view() == pair.1,
        },
        root_valid(commits@, root) ==> ({
            let h = hidden_spec(commits@, root);
            let refs = classify_spec(inputs@, commits@);
            let b = boundary_spec(refs, commits@.len() as int);
            match collect_spec(commits@, h, b, refs) {
                Err(e) => res matches Err(f) && f matches ExtractError::MalformedTrailer(t) && t@
                    == e,
                Ok(pair) => res matches Ok(out) && changes_model(out.changes@) == sort_desc_m(
                    pair.0,
                ) && out.skipped.deep_view() == pair.1 && sorted_desc(out.changes@),
            }
        }),
{
    let n = commits.len();
    let hidden: Vec<bool> = match root {
        RootSpec::NoRoot => vec![false; n],
        RootSpec::At(i) => {
            if i >= n {
                return Err(ExtractError::InvalidRoot);
            }
            crate::graph::mark_ancestors(commits, i)
        },
        RootSpec::Unresolved => {
            return Err(ExtractError::InvalidRoot);
        },
    };
    proof {
        assert(hidden@ =~= hidden_spec(commits@, root));
    }
    let refs = classify_refs(inputs, commits);
    proof {
        lemma_sel_refs_targets(inputs@, commits@, 0, n as int);
        lemma_sel_refs_targets(inputs@, commits@, 1, n as int);
        lemma_sel_refs_targets(inputs@, commits@, 2, n as int);
        let s0 = sel_refs(inputs@, commits@, 0);
        let s1 = sel_refs(inputs@, commits@, 1);
        let s2 = sel_refs(inputs@, commits@, 2);
        assert forall|k: int| 0 <= k < refs.len() implies ((#[trigger] refs[k]).target as int)
            < n as int by {
            if k < s0.len() {
                assert(refs[k] == s0[k]);
            } else if k < s0.len() + s1.len() {
                assert(refs[k] == s1[k - s0.len()]);
            } else {
                assert(refs[k] == s2[k - s0.len() - s1.len()]);
            }
        }
    }
    let boundary = boundary_marks(&refs, n);
    proof {
        assert(boundary@ =~= boundary_spec(refs@, n as int));
    }
    let ghost h = hidden@;
    let ghost b = boundary@;
    let m = refs.len();
    let mut changes: Vec<Change> = Vec::new();
    let mut skipped: Vec<String> = Vec::new();
    let mut k: usize = 0;
    proof {
        assert(refs@.skip(0) =~= refs@);
        assert(changes_model(changes@) =~= Seq::<ChangeModel>::empty());
        assert(skipped.deep_view() =~= Seq::<Seq<char>>::empty());
        match collect_spec(commits@, h, b, refs@) {
            Err(_) => {},
            Ok(pair) => {
                assert(pair.0 =~= changes_model(changes@) + pair.0);
                assert(pair.1 =~= skipped.deep_view() + pair.1);
            },
        }
    }
    while k < m
        invariant
            k <= m,
            m == refs.len(),
            n == commits.len(),
            crate::graph::graph_wf(commits@),
            root_valid(commits@, root),
            h == hidden@,
            b == boundary@,
            h == hidden_spec(commits@, root),
            refs@ == classify_spec(inputs@, commits@),
            b == boundary_spec(refs@, n as int),
            hidden.len() == n,
            boundary.len() == n,
            forall|t: int| 0 <= t < refs.len() ==> ((#[trigger] refs[t]).target as int) < n as int,
            forall|t: int|
                0 <= t < changes@.len() ==> crate::parse::sec_sorted(
                    secs_model((#[trigger] changes@[t]).sections@),
                ),
            match collect_spec(commits@, h, b, refs@) {
                Err(e) => collect_spec(commits@, h, b, refs@.skip(k as int)) == Err::<
                    (Seq<ChangeModel>, Seq<Seq<char>>),
                    Seq<char>,
                >(e),
                Ok(pair) => match collect_spec(commits@, h, b, refs@.skip(k as int)) {
                    Err(_) => false,
                    Ok(rest) => pair.0 == changes_model(changes@) + rest.0 && pair.1
                        == skipped.deep_view() + rest.1,
                },
            },
        decreases m - k,
    {
        let ghost rk = refs@[k as int];
        proof {
            assert(refs@.skip(k as int)[0] == rk);
            assert(refs@.skip(k as int).drop_first() =~= refs@.skip(k + 1));
        }
        let ghost cm0 = changes_model(changes@);
        let ghost sk0 = skipped.deep_view();
        match walk_reference(commits, &hidden, &boundary, &refs[k]) {
            Err(e) => {
                proof {
                    if tag_owned_spec(h, b, rk) {
                        assert(false);
                    }
                    match walk_parse(commits@, h, b, rk) {
                        Ok(_) => {
                            assert(false);
                        },
                        Err(etext) => {
                            assert(walk_change(commits@, h, b, rk) == Err::<
                                Option<ChangeModel>,
                                Seq<char>,
                            >(etext));
                            assert(collect_spec(commits@, h, b, refs@.skip(k as int)) == Err::<
                                (Seq<ChangeModel>, Seq<Seq<char>>),
                                Seq<char>,
                            >(etext));
                        },
                    }
                }
                return Err(e);
            },
            Ok(o) => {
                match o {
                    WalkOutcome::Emitted(ch) => {
                        changes.push(ch);
                        proof {
                            assert(changes_model(changes@) =~= cm0 + seq![
                                walk_change(commits@, h, b, rk)->Ok_0->Some_0,
                            ]);
                            assert(walk_diag(commits@, h, b, rk) is None);
                        }
                    },
                    WalkOutcome::TagOwned => {
                        let name = short_name(refs[k].name.as_str(), refs[k].is_release);
                        skipped.push(name);
                        proof {
                            assert(skipped.deep_view() =~= sk0 + seq![
                                short_name_spec(rk.name@, rk.is_release),
                            ]);
                        }
                    },
                    WalkOutcome::EmptyWalk => {
                        let name = short_name(refs[k].name.as_str(), refs[k].is_release);
                        skipped.push(name);
                        proof {
                            assert(skipped.deep_view() =~= sk0 + seq![
                                short_name_spec(rk.name@, rk.is_release),
                            ]);
                        }
                    },
                    WalkOutcome::PastRoot => {
                    },
                }
            },
        }
        k = k + 1;
    }
    proof {
        assert(refs@.skip(m as int) =~= Seq::<Reference>::empty());
        assert(collect_spec(commits@, h, b, refs@.skip(m as int)) == Ok::<
            (Seq<ChangeModel>, Seq<Seq<char>>),
            Seq<char>,
        >((Seq::<ChangeModel>::empty(), Seq::<Seq<char>>::empty())));
    }
    let ghost collected = changes_model(changes@);
    let ghost pre = changes@;
    let sorted = sort_changes(changes);
    proof {
        lemma_sort_desc_model(pre);
        assert forall|i: int| 0 <= i < sorted@.len() implies crate::parse::sec_sorted(
            secs_model((#[trigger] sorted@[i]).sections@),
        ) by {
            assert(pre.contains(sorted@[i]));
            let w = choose|w: int| 0 <= w < pre.len() && pre[w] == sorted@[i];
        }
    }
    let out = ExtractOutput { changes: sorted, skipped };
    proof {
        match collect_spec(commits@, h, b, refs@) {
            Err(_) => {
                assert(false);
            },
            Ok(pair) => {
                assert(pair.0 =~= collected);
                assert(pair.1 =~= out.skipped.deep_view());
                assert(changes_model(out.changes@) == sort_desc_m(pair.0));
            },
        }
    }
    Ok(out)
}

/// The options of one extraction run.
#[derive(Debug)]
pub struct Args {
    /// The commit starting from the children of which the log is
    /// extracted; absent means the repository's true root. An empty
    /// string counts as absent.
    pub root_commit: Option<String>,
}

impl Args {
    /// The root revision to resolve, with the empty string treated as
    /// no root at all.
    pub fn effective_root(&self) -> (r: Option<&String>)
        ensures
            match self.root_commit {
                Option::Some(s) => {
                    if s@.len() == 0 {
                        r is None
                    } else {
                        r matches Some(t) && t@ == s@
                    }
                },
                Option::None => r is None,
            },
    {
        match &self.root_commit {
            None => None,
            Some(s) => {
                if s.as_str().unicode_len() == 0 {
                    None
                } else {
                    Some(s)
                }
            },
        }
    }
}

/// The whole extraction as one function of the snapshot: classified
/// references, frozen boundary, all walks, and the final sort.
pub open spec fn extract_spec(c: Seq<Commit>, ins: Seq<RefInput>, root: RootSpec) -> Result<
    (Seq<ChangeModel>, Seq<Seq<char>>),
    Seq<char>,
> {
    let refs = classify_spec(ins, c);
    match collect_spec(c, hidden_spec(c, root), boundary_spec(refs, c.len() as int), refs) {
        Err(e) => Err(e),
        Ok(pair) => Ok((sort_desc_m(pair.0), pair.1)),
    }
}

} // verus!
