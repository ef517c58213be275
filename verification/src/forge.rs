//! Derives a forge update table from the extracted changelog.
//!
//! Release tags follow the `v{ECOSYSTEM}-{COMPONENT}[-{SUFFIX}]`
//! convention. For every catalog version the ecosystem part prefixes,
//! the newest matching release becomes `latest`, the newest without a
//! suffix becomes `recommended`, and each release contributes its
//! rendered section text under its component version.

use vstd::prelude::*;

use crate::extract::Change;
use crate::extract::secs_model;
use crate::render::rendered_sections;
use crate::strutil::is_prefix_of;

verus! {

/// The options of one run.
#[derive(Debug)]
pub struct Args {
    /// Input changelog file name; `-` for the standard input.
    pub changelog: String,
    /// Optional JSON template file the result is merged over.
    pub template: Option<String>,
}

/// The update table cannot be derived.
#[derive(Debug)]
pub enum ForgeError {
    /// A release tag does not follow the `v{ECOSYSTEM}-{COMPONENT}`
    /// convention.
    MalformedTag,
}

/// Index of the first occurrence of `c` in `s`, or -1.
pub open spec fn find_char(s: Seq<char>, c: char) -> int
    decreases s.len(),
{
    if s.len() == 0 {
        -1
    } else if s[0] == c {
        0
    } else if find_char(s.drop_first(), c) == -1 {
        -1
    } else {
        find_char(s.drop_first(), c) + 1
    }
}

pub proof fn lemma_find_char(s: Seq<char>, c: char)
    ensures
        find_char(s, c) == -1 ==> (forall|j: int| 0 <= j < s.len() ==> s[j] != c),
        find_char(s, c) != -1 ==> 0 <= find_char(s, c) < s.len() && s[find_char(s, c)] == c && (
        forall|j: int| 0 <= j < find_char(s, c) ==> s[j] != c),
    decreases s.len(),
{
    if s.len() > 0 && s[0] != c {
        lemma_find_char(s.drop_first(), c);
        assert(forall|j: int| 1 <= j < s.len() ==> #[trigger] s[j] == s.drop_first()[j - 1]);
    }
}

/// Position of the first `c` in `s`, if any.
fn find_char_at(s: &str, c: char) -> (r: Option<usize>)
    ensures
        r matches Some(i) ==> i as int == find_char(s@, c),
        r is None ==> find_char(s@, c) == -1,
{
    let n = s.unicode_len();
    let mut i: usize = 0;
    while i < n
        invariant
            i <= n,
            n == s@.len(),
            forall|j: int| 0 <= j < i ==> s@[j] != c,
        decreases n - i,
    {
        if s.get_char(i) == c {
            proof {
                lemma_find_char(s@, c);
            }
            return Some(i);
        }
        i = i + 1;
    }
    proof {
        lemma_find_char(s@, c);
    }
    None
}

/// The tag name's parts: ecosystem version, component version, and
/// whether a suffix (alpha, beta, rc) follows.
pub open spec fn parse_tag_spec(name: Seq<char>) -> Option<(Seq<char>, Seq<char>, bool)> {
    let sv = crate::extract::strip_prefix_spec("v"@, name);
    let i = find_char(sv, '-');
    if i == -1 {
        Option::None
    } else {
        let mc = sv.take(i);
        let rest = sv.skip(i + 1);
        let j = find_char(rest, '-');
        if j == -1 {
            Option::Some((mc, rest, false))
        } else {
            Option::Some((mc, rest.take(j), true))
        }
    }
}

/// The parts of one release tag name.
#[derive(Debug)]
pub struct TagParts {
    pub ecosystem: String,
    pub component: String,
    pub has_suffix: bool,
}

/// Splits a release tag name of the form `v{ECOSYSTEM}-{COMPONENT}` with
/// an optional `-{SUFFIX}`; the leading `v` is optional. A name without
/// the two dash-separated parts is malformed.
pub fn parse_tag(name: &str) -> (r: Result<TagParts, ForgeError>)
    ensures
        r matches Ok(tp) ==> parse_tag_spec(name@) matches Some(t) && t.0 == tp.ecosystem@ && t.1
            == tp.component@ && t.2 == tp.has_suffix,
        r is Err ==> parse_tag_spec(name@) is None,
{
    let sv: String = match crate::strutil::strip_prefix_string(name, "v") {
        Some(t) => t,
        None => name.to_owned(),
    };
    let i = match find_char_at(sv.as_str(), '-') {
        Some(i) => i,
        None => {
            return Err(ForgeError::MalformedTag);
        },
    };
    proof {
        lemma_find_char(sv@, '-');
    }
    let n = sv.as_str().unicode_len();
    let mc = sv.as_str().substring_char(0, i).to_owned();
    let rest = sv.as_str().substring_char(i + 1, n).to_owned();
    proof {
        assert(mc@ =~= sv@.take(i as int));
        assert(rest@ =~= sv@.skip(i + 1));
    }
    match find_char_at(rest.as_str(), '-') {
        None => Ok(TagParts { ecosystem: mc, component: rest, has_suffix: false }),
        Some(j) => {
            proof {
                lemma_find_char(rest@, '-');
            }
            let comp = rest.as_str().substring_char(0, j).to_owned();
            proof {
                assert(comp@ =~= rest@.take(j as int));
            }
            Ok(TagParts { ecosystem: mc, component: comp, has_suffix: true })
        },
    }
}

/// `s` with a trailing `suf` removed when it carries it.
pub open spec fn strip_suffix_spec(s: Seq<char>, suf: Seq<char>) -> Seq<char> {
    if s.len() >= suf.len() && s.skip(s.len() - suf.len()) == suf {
        s.take(s.len() - suf.len())
    } else {
        s
    }
}

/// An association list keyed by string view.
pub type PairsModel = Seq<(Seq<char>, Seq<char>)>;

/// A version entry: a catalog version and its component texts.
pub type EntriesModel = Seq<(Seq<char>, PairsModel)>;

pub open spec fn pair_index_of(m: PairsModel, k: Seq<char>) -> int
    decreases m.len(),
{
    if m.len() == 0 {
        -1
    } else if m[0].0 == k {
        0
    } else if pair_index_of(m.drop_first(), k) == -1 {
        -1
    } else {
        pair_index_of(m.drop_first(), k) + 1
    }
}

pub proof fn lemma_pair_index_of(m: PairsModel, k: Seq<char>)
    ensures
        pair_index_of(m, k) == -1 ==> (forall|j: int| 0 <= j < m.len() ==> (#[trigger] m[j]).0
            != k),
        pair_index_of(m, k) != -1 ==> 0 <= pair_index_of(m, k) < m.len() && m[pair_index_of(
            m,
            k,
        )].0 == k && (forall|j: int| 0 <= j < pair_index_of(m, k) ==> (#[trigger] m[j]).0 != k),
    decreases m.len(),
{
    if m.len() > 0 && m[0].0 != k {
        lemma_pair_index_of(m.drop_first(), k);
        assert(forall|j: int| 1 <= j < m.len() ==> #[trigger] m[j] == m.drop_first()[j - 1]);
    }
}

/// First-writer-wins insertion: the newest release settles each key.
pub open spec fn or_insert_spec(m: PairsModel, k: Seq<char>, v: Seq<char>) -> PairsModel {
    if pair_index_of(m, k) == -1 {
        m.push((k, v))
    } else {
        m
    }
}

/// Keyed insertion that replaces an existing value.
pub open spec fn put_mod_spec(m: PairsModel, k: Seq<char>, v: Seq<char>) -> PairsModel {
    if pair_index_of(m, k) == -1 {
        m.push((k, v))
    } else {
        m.update(pair_index_of(m, k), (k, v))
    }
}

pub open spec fn entry_index_of(m: EntriesModel, k: Seq<char>) -> int
    decreases m.len(),
{
    if m.len() == 0 {
        -1
    } else if m[0].0 == k {
        0
    } else if entry_index_of(m.drop_first(), k) == -1 {
        -1
    } else {
        entry_index_of(m.drop_first(), k) + 1
    }
}

pub proof fn lemma_entry_index_of(m: EntriesModel, k: Seq<char>)
    ensures
        entry_index_of(m, k) == -1 ==> (forall|j: int| 0 <= j < m.len() ==> (#[trigger] m[j]).0
            != k),
        entry_index_of(m, k) != -1 ==> 0 <= entry_index_of(m, k) < m.len() && m[entry_index_of(
            m,
            k,
        )].0 == k && (forall|j: int| 0 <= j < entry_index_of(m, k) ==> (#[trigger] m[j]).0 != k),
    decreases m.len(),
{
    if m.len() > 0 && m[0].0 != k {
        lemma_entry_index_of(m.drop_first(), k);
        assert(forall|j: int| 1 <= j < m.len() ==> #[trigger] m[j] == m.drop_first()[j - 1]);
    }
}

/// One release's text recorded under a catalog version, creating the
/// entry when needed and replacing an earlier text of the same
/// component.
pub open spec fn add_entry_spec(
    m: EntriesModel,
    vkey: Seq<char>,
    comp: Seq<char>,
    text: Seq<char>,
) -> EntriesModel {
    let i = entry_index_of(m, vkey);
    if i == -1 {
        m.push((vkey, put_mod_spec(Seq::empty(), comp, text)))
    } else {
        m.update(i, (m[i].0, put_mod_spec(m[i].1, comp, text)))
    }
}

/// One release applied to every matching catalog version, in catalog
/// order.
pub open spec fn apply_versions(
    versions: Seq<Seq<char>>,
    mc: Seq<char>,
    comp: Seq<char>,
    has_suffix: bool,
    text: Seq<char>,
    st: (EntriesModel, PairsModel, PairsModel),
) -> (EntriesModel, PairsModel, PairsModel)
    decreases versions.len(),
{
    if versions.len() == 0 {
        st
    } else if is_prefix_of(mc, versions[0]) {
        let vkey = strip_suffix_spec(versions[0], ".0"@);
        let lat = or_insert_spec(st.2, vkey, comp);
        let rec = if !has_suffix {
            or_insert_spec(st.1, vkey, comp)
        } else {
            st.1
        };
        let ent = add_entry_spec(st.0, vkey, comp, text);
        apply_versions(versions.drop_first(), mc, comp, has_suffix, text, (ent, rec, lat))
    } else {
        apply_versions(versions.drop_first(), mc, comp, has_suffix, text, st)
    }
}

/// Every release of the changelog applied in order; a malformed tag
/// aborts everything.
pub open spec fn build_spec(
    changes: Seq<Change>,
    versions: Seq<Seq<char>>,
    st: (EntriesModel, PairsModel, PairsModel),
) -> Result<(EntriesModel, PairsModel, PairsModel), ()>
    decreases changes.len(),
{
    if changes.len() == 0 {
        Ok(st)
    } else if !changes[0].is_release {
        build_spec(changes.drop_first(), versions, st)
    } else {
        match parse_tag_spec(changes[0].name@) {
            Option::None => Err(()),
            Option::Some(t) => build_spec(
                changes.drop_first(),
                versions,
                apply_versions(
                    versions,
                    t.0,
                    t.1,
                    t.2,
                    rendered_sections(secs_model(changes[0].sections@), Seq::<char>::empty()),
                    st,
                ),
            ),
        }
    }
}

/// The view of an association list of strings.
pub open spec fn pairs_view(m: Seq<(String, String)>) -> PairsModel {
    Seq::new(m.len(), |i: int| (m[i].0@, m[i].1@))
}

/// One version's entry in the update table: the catalog version and the
/// rendered text of each component released for it.
#[derive(Debug)]
pub struct VersionEntry {
    pub version: String,
    pub mods: Vec<(String, String)>,
}

/// The view of the entry list.
pub open spec fn entries_view(v: Seq<VersionEntry>) -> EntriesModel {
    Seq::new(v.len(), |i: int| (v[i].version@, pairs_view(v[i].mods@)))
}

/// The derived update table.
#[derive(Debug)]
pub struct ForgeUpdates {
    pub entries: Vec<VersionEntry>,
    pub recommended: Vec<(String, String)>,
    pub latest: Vec<(String, String)>,
}

/// Inserts `(k, v)` unless the key is already present.
fn or_insert(m: &mut Vec<(String, String)>, k: &str, v: &str)
    ensures
        pairs_view(final(m)@) == or_insert_spec(pairs_view(old(m)@), k@, v@),
{
    let ghost pm = pairs_view(old(m)@);
    let n = m.len();
    let mut i: usize = 0;
    while i < n
        invariant
            i <= n,
            n == m.len(),
            *m == *old(m),
            pm == pairs_view(m@),
            forall|j: int| 0 <= j < i ==> (#[trigger] m[j].0@) != k@,
        decreases n - i,
    {
        if crate::strutil::str_eq(m[i].0.as_str(), k) {
            proof {
                lemma_pair_index_of(pm, k@);
                assert(pm[i as int].0 == k@);
            }
            return ;
        }
        i = i + 1;
    }
    proof {
        lemma_pair_index_of(pm, k@);
        if pair_index_of(pm, k@) != -1 {
            assert(pm[pair_index_of(pm, k@)].0 == k@);
            assert(false);
        }
    }
    m.push((k.to_owned(), v.to_owned()));
    proof {
        assert(pairs_view(m@) =~= pm.push((k@, v@)));
    }
}

/// Inserts `(k, v)`, replacing the value of an existing key.
fn put_mod(m: &mut Vec<(String, String)>, k: &str, v: &str)
    ensures
        pairs_view(final(m)@) == put_mod_spec(pairs_view(old(m)@), k@, v@),
{
    let ghost pm = pairs_view(old(m)@);
    let n = m.len();
    let mut i: usize = 0;
    while i < n
        invariant
            i <= n,
            n == m.len(),
            *m == *old(m),
            pm == pairs_view(m@),
            forall|j: int| 0 <= j < i ==> (#[trigger] m[j].0@) != k@,
        decreases n - i,
    {
        if crate::strutil::str_eq(m[i].0.as_str(), k) {
            proof {
                lemma_pair_index_of(pm, k@);
                assert(pm[i as int].0 == k@);
                assert(pair_index_of(pm, k@) == i as int);
            }
            let _ = m.remove(i);
            m.insert(i, (k.to_owned(), v.to_owned()));
            proof {
                assert(pairs_view(m@) =~= pm.update(i as int, (k@, v@)));
            }
            return ;
        }
        i = i + 1;
    }
    proof {
        lemma_pair_index_of(pm, k@);
        if pair_index_of(pm, k@) != -1 {
            assert(pm[pair_index_of(pm, k@)].0 == k@);
            assert(false);
        }
    }
    m.push((k.to_owned(), v.to_owned()));
    proof {
        assert(pairs_view(m@) =~= pm.push((k@, v@)));
    }
}

/// Records one release's text under a catalog version.
fn add_entry(entries: &mut Vec<VersionEntry>, vkey: &str, comp: &str, text: &str)
    ensures
        entries_view(final(entries)@) == add_entry_spec(
            entries_view(old(entries)@),
            vkey@,
            comp@,
            text@,
        ),
{
    let ghost em = entries_view(old(entries)@);
    let n = entries.len();
    let mut i: usize = 0;
    while i < n
        invariant
            i <= n,
            n == entries.len(),
            *entries == *old(entries),
            em == entries_view(entries@),
            forall|j: int| 0 <= j < i ==> (#[trigger] entries[j].version@) != vkey@,
        decreases n - i,
    {
        if crate::strutil::str_eq(entries[i].version.as_str(), vkey) {
            proof {
                lemma_entry_index_of(em, vkey@);
                assert(em[i as int].0 == vkey@);
                assert(entry_index_of(em, vkey@) == i as int);
            }
            let mut entry = entries.remove(i);
            put_mod(&mut entry.mods, comp, text);
            entries.insert(i, entry);
            proof {
                assert(entries_view(entries@) =~= em.update(
                    i as int,
                    (em[i as int].0, put_mod_spec(em[i as int].1, comp@, text@)),
                ));
            }
            return ;
        }
        i = i + 1;
    }
    proof {
        lemma_entry_index_of(em, vkey@);
        if entry_index_of(em, vkey@) != -1 {
            assert(em[entry_index_of(em, vkey@)].0 == vkey@);
            assert(false);
        }
    }
    let mut mods: Vec<(String, String)> = Vec::new();
    put_mod(&mut mods, comp, text);
    entries.push(VersionEntry { version: vkey.to_owned(), mods });
    proof {
        assert(pairs_view(Seq::<(String, String)>::empty()) =~= Seq::<(
            Seq<char>,
            Seq<char>,
        )>::empty());
        assert(entries_view(entries@) =~= em.push(
            (vkey@, put_mod_spec(Seq::empty(), comp@, text@)),
        ));
    }
}

/// Removes a trailing `.0` from a catalog version.
fn strip_dot_zero(version: &str) -> (r: String)
    ensures
        r@ == strip_suffix_spec(version@, ".0"@),
{
    proof {
        reveal_strlit(".0");
    }
    let n = version.unicode_len();
    if n >= 2 && version.get_char(n - 2) == '.' && version.get_char(n - 1) == '0' {
        proof {
            assert(version@.skip(n - 2) =~= (".0")@);
        }
        let head = version.substring_char(0, n - 2);
        proof {
            assert(head@ =~= version@.take(n - 2));
        }
        head.to_owned()
    } else {
        proof {
            if version@.len() >= 2 && version@.skip(version@.len() - 2) == (".0")@ {
                assert(version@[version@.len() - 2] == version@.skip(version@.len() - 2)[0]);
                assert(version@[version@.len() - 1] == version@.skip(version@.len() - 2)[1]);
                assert(false);
            }
        }
        version.to_owned()
    }
}

/// How many times `c` occurs in `s`.
pub open spec fn count_char(s: Seq<char>, c: char) -> int
    decreases s.len(),
{
    if s.len() == 0 {
        0
    } else {
        (if s[0] == c {
            1int
        } else {
            0int
        }) + count_char(s.drop_first(), c)
    }
}

/// A catalog version id as the update table keys it: an id with exactly
/// one dot gets a `.0` patch part.
pub open spec fn norm_id(id: Seq<char>) -> Seq<char> {
    if count_char(id, '.') == 1 {
        id + ".0"@
    } else {
        id
    }
}

/// The release ids of a version catalog, normalized, in catalog order.
pub open spec fn norm_versions_spec(vs: Seq<(String, String)>) -> Seq<Seq<char>>
    decreases vs.len(),
{
    if vs.len() == 0 {
        Seq::empty()
    } else {
        (if vs[0].1@ == "release"@ {
            seq![norm_id(vs[0].0@)]
        } else {
            Seq::<Seq<char>>::empty()
        }) + norm_versions_spec(vs.drop_first())
    }
}

proof fn lemma_norm_versions_snoc(vs: Seq<(String, String)>, x: (String, String))
    ensures
        norm_versions_spec(vs.push(x)) == norm_versions_spec(vs) + (if x.1@ == "release"@ {
            seq![norm_id(x.0@)]
        } else {
            Seq::<Seq<char>>::empty()
        }),
    decreases vs.len(),
{
    let tail = if x.1@ == "release"@ {
        seq![norm_id(x.0@)]
    } else {
        Seq::<Seq<char>>::empty()
    };
    if vs.len() == 0 {
        assert(vs.push(x)[0] == x);
        assert(vs.push(x).drop_first() =~= vs);
        assert(norm_versions_spec(vs.push(x)) == tail + norm_versions_spec(vs));
        assert(tail + Seq::<Seq<char>>::empty() =~= Seq::<Seq<char>>::empty() + tail);
    } else {
        let head = if vs[0].1@ == "release"@ {
            seq![norm_id(vs[0].0@)]
        } else {
            Seq::<Seq<char>>::empty()
        };
        assert(vs.push(x)[0] == vs[0]);
        assert(vs.push(x).drop_first() =~= vs.drop_first().push(x));
        assert(norm_versions_spec(vs.push(x)) == head + norm_versions_spec(
            vs.drop_first().push(x),
        ));
        lemma_norm_versions_snoc(vs.drop_first(), x);
        assert(norm_versions_spec(vs) == head + norm_versions_spec(vs.drop_first()));
        assert(head + (norm_versions_spec(vs.drop_first()) + tail) =~= (head + norm_versions_spec(
            vs.drop_first(),
        )) + tail);
    }
}

/// Counts the occurrences of `c` in `s`.
fn count_char_in(s: &str, c: char) -> (r: usize)
    ensures
        r as int == count_char(s@, c),
{
    let n = s.unicode_len();
    let mut i: usize = 0;
    let mut count: usize = 0;
    proof {
        assert(s@.skip(0) =~= s@);
    }
    while i < n
        invariant
            i <= n,
            count <= i,
            n == s@.len(),
            count + count_char(s@.skip(i as int), c) == count_char(s@, c),
        decreases n - i,
    {
        proof {
            assert(s@.skip(i as int)[0] == s@[i as int]);
            assert(s@.skip(i as int).drop_first() =~= s@.skip(i + 1));
        }
        if s.get_char(i) == c {
            count = count + 1;
        }
        i = i + 1;
    }
    proof {
        assert(s@.skip(n as int) =~= Seq::<char>::empty());
    }
    count
}

/// Keeps the catalog's release versions, in order, normalizing an id
/// with a single dot by a `.0` patch part.
pub fn normalize_versions(catalog: &Vec<(String, String)>) -> (r: Vec<String>)
    ensures
        r.deep_view() == norm_versions_spec(catalog@),
{
    let mut out: Vec<String> = Vec::new();
    let n = catalog.len();
    let mut k: usize = 0;
    proof {
        assert(catalog@.take(0) =~= Seq::<(String, String)>::empty());
        assert(out.deep_view() =~= norm_versions_spec(catalog@.take(0)));
    }
    while k < n
        invariant
            k <= n,
            n == catalog.len(),
            out.deep_view() == norm_versions_spec(catalog@.take(k as int)),
        decreases n - k,
    {
        proof {
            assert(catalog@.take(k + 1) =~= catalog@.take(k as int).push(catalog@[k as int]));
            lemma_norm_versions_snoc(catalog@.take(k as int), catalog@[k as int]);
        }
        let ghost dv0 = out.deep_view();
        if crate::strutil::str_eq(catalog[k].1.as_str(), "release") {
            let id = &catalog[k].0;
            let dots = count_char_in(id.as_str(), '.');
            if dots == 1 {
                let padded = id.clone().concat(".0");
                out.push(padded);
            } else {
                out.push(id.clone());
            }
            proof {
                assert(out.deep_view() =~= dv0.push(norm_id(catalog@[k as int].0@)));
            }
        }
        k = k + 1;
    }
    proof {
        assert(catalog@.take(n as int) =~= catalog@);
    }
    out
}

/// Derives the update table from the sorted changelog and the
/// normalized version catalog: for each release, every catalog version
/// its ecosystem part prefixes gains the release's rendered text, and
/// the first (newest) release settles `latest`, and `recommended` when
/// it has no suffix.
pub fn build_updates(changes: &Vec<Change>, versions: &Vec<String>) -> (r: Result<
    ForgeUpdates,
    ForgeError,
>)
    ensures
        ({
            let init = (
                Seq::<(Seq<char>, PairsModel)>::empty(),
                Seq::<(Seq<char>, Seq<char>)>::empty(),
                Seq::<(Seq<char>, Seq<char>)>::empty(),
            );
            match build_spec(changes@, versions.deep_view(), init) {
                Err(_) => r is Err,
                Ok(st) => r matches Ok(u) && entries_view(u.entries@) == st.0 && pairs_view(
                    u.recommended@,
                ) == st.1 && pairs_view(u.latest@) == st.2,
            }
        }),
{
    let ghost vsv = versions.deep_view();
    let ghost init = (
        Seq::<(Seq<char>, PairsModel)>::empty(),
        Seq::<(Seq<char>, Seq<char>)>::empty(),
        Seq::<(Seq<char>, Seq<char>)>::empty(),
    );
    let mut entries: Vec<VersionEntry> = Vec::new();
    let mut recommended: Vec<(String, String)> = Vec::new();
    let mut latest: Vec<(String, String)> = Vec::new();
    let n = changes.len();
    let mut k: usize = 0;
    proof {
        assert(changes@.skip(0) =~= changes@);
        assert(entries_view(entries@) =~= init.0);
        assert(pairs_view(recommended@) =~= init.1);
        assert(pairs_view(latest@) =~= init.2);
    }
    while k < n
        invariant
            k <= n,
            n == changes.len(),
            vsv == versions.deep_view(),
            init == (
                Seq::<(Seq<char>, PairsModel)>::empty(),
                Seq::<(Seq<char>, Seq<char>)>::empty(),
                Seq::<(Seq<char>, Seq<char>)>::empty(),
            ),
            build_spec(changes@, vsv, init) == build_spec(
                changes@.skip(k as int),
                vsv,
                (entries_view(entries@), pairs_view(recommended@), pairs_view(latest@)),
            ),
        decreases n - k,
    {
        proof {
            assert(changes@.skip(k as int)[0] == changes@[k as int]);
            assert(changes@.skip(k as int).drop_first() =~= changes@.skip(k + 1));
        }
        if changes[k].is_release {
            let parts = match parse_tag(changes[k].name.as_str()) {
                Ok(p) => p,
                Err(e) => {
                    proof {
                        assert(build_spec(
                            changes@.skip(k as int),
                            vsv,
                            (
                                entries_view(entries@),
                                pairs_view(recommended@),
                                pairs_view(latest@),
                            ),
                        ) == Err::<(EntriesModel, PairsModel, PairsModel), ()>(()));
                    }
                    return Err(e);
                },
            };
            let mut text = String::new();
            proof {
                reveal_strlit("");
                assert(("")@ =~= Seq::<char>::empty());
            }
            crate::render::write_section(&mut text, &changes[k], "");
            proof {
                assert(text@ =~= rendered_sections(
                    secs_model(changes@[k as int].sections@),
                    Seq::<char>::empty(),
                ));
            }
            let m = versions.len();
            let mut v: usize = 0;
            let ghost st_in = (
                entries_view(entries@),
                pairs_view(recommended@),
                pairs_view(latest@),
            );
            let ghost mc = parts.ecosystem@;
            let ghost comp = parts.component@;
            let ghost tv = text@;
            proof {
                assert(vsv.skip(0) =~= vsv);
            }
            while v < m
                invariant
                    v <= m,
                    m == versions.len(),
                    vsv == versions.deep_view(),
                    mc == parts.ecosystem@,
                    comp == parts.component@,
                    tv == text@,
                    apply_versions(vsv, mc, comp, parts.has_suffix, tv, st_in) == apply_versions(
                        vsv.skip(v as int),
                        mc,
                        comp,
                        parts.has_suffix,
                        tv,
                        (entries_view(entries@), pairs_view(recommended@), pairs_view(latest@)),
                    ),
                decreases m - v,
            {
                proof {
                    assert(vsv.skip(v as int)[0] == vsv[v as int]);
                    assert(vsv[v as int] == versions@[v as int]@);
                    assert(vsv.skip(v as int).drop_first() =~= vsv.skip(v + 1));
                }
                if crate::strutil::str_starts_with(
                    versions[v].as_str(),
                    parts.ecosystem.as_str(),
                ) {
                    let vkey = strip_dot_zero(versions[v].as_str());
                    or_insert(&mut latest, vkey.as_str(), parts.component.as_str());
                    if !parts.has_suffix {
                        or_insert(&mut recommended, vkey.as_str(), parts.component.as_str());
                    }
                    add_entry(&mut entries, vkey.as_str(), parts.component.as_str(), text.as_str());
                }
                v = v + 1;
            }
            proof {
                assert(vsv.skip(m as int) =~= Seq::<Seq<char>>::empty());
            }
        }
        k = k + 1;
    }
    proof {
        assert(changes@.skip(n as int) =~= Seq::<Change>::empty());
    }
    Ok(ForgeUpdates { entries, recommended, latest })
}

} // verus!
