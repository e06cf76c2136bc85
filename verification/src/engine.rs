//! Sync planning: which mirror jobs a batch of changes needs, and how the
//! mirror directory is brought back in line with the index.

use crate::config::Config;
use crate::filename::{key_suffix_spec, render_auto, render_auto_spec, with_key_suffix};
use crate::mirror::{backend_for, Backend, MirrorBackend};
use crate::models::{IndexedItem, MirrorOperation, NewMirrorJob, Platform};
use crate::state::{LibrarySyncReport, MirrorRefreshReport};
use crate::dto::{trashed, VersionResponse, ZoteroItem};
use crate::errors::Error;
use crate::models::LibraryKind;
use crate::normalizer::{excluded_type, norm_hash, normalize_item, normalized_from};
use crate::models::{RemoteLibrary, SyncBatch};
use crate::text::{chars_eq, chars_of, has_char, push_str, starts_with, string_of};
use crate::ztemplate::{opt_view, template_data_spec};
use vstd::prelude::*;

verus! {

/// The platforms with mirroring enabled, Windows first.
pub open spec fn enabled_platforms_spec(config: Config) -> Seq<Platform> {
    let w: Seq<Platform> = if config.mirror.windows.enabled {
        seq![Platform::Windows]
    } else {
        Seq::empty()
    };
    if config.mirror.macos.enabled {
        w.push(Platform::Macos)
    } else {
        w
    }
}

/// Platforms with mirroring enabled in the configuration.
pub fn enabled_platforms(config: &Config) -> (res: Vec<Platform>)
    ensures
        res@ == enabled_platforms_spec(*config),
{
    let mut out: Vec<Platform> = Vec::new();
    if config.mirror.windows.enabled {
        out.push(Platform::Windows);
    }
    if config.mirror.macos.enabled {
        out.push(Platform::Macos);
    }
    assert(out@ =~= enabled_platforms_spec(*config));
    out
}

// ---------------------------------------------------------------------
// Names and their owners
// ---------------------------------------------------------------------

/// A text pair list as sequences.
pub open spec fn pairs_view(v: Seq<(String, String)>) -> Seq<(Seq<char>, Seq<char>)> {
    v.map_values(|p: (String, String)| (p.0@, p.1@))
}

spec fn cpairs_view(v: Seq<(Vec<char>, Vec<char>)>) -> Seq<(Seq<char>, Seq<char>)> {
    v.map_values(|p: (Vec<char>, Vec<char>)| (p.0@, p.1@))
}

/// Name-to-owner entries, a later entry for a name replacing an earlier one.
pub open spec fn owners(entries: Seq<(Seq<char>, Seq<char>)>) -> Map<Seq<char>, Seq<char>>
    decreases entries.len(),
{
    if entries.len() == 0 {
        Map::empty()
    } else {
        owners(entries.drop_last()).insert(entries.last().0, entries.last().1)
    }
}

proof fn lemma_owners_lookup(e: Seq<(Seq<char>, Seq<char>)>, k: Seq<char>, i: int)
    requires
        -1 <= i < e.len(),
        forall|j: int| i < j < e.len() ==> #[trigger] e[j].0 != k,
        i >= 0 ==> e[i].0 == k,
    ensures
        i >= 0 ==> owners(e).contains_key(k) && owners(e)[k] == e[i].1,
        i < 0 ==> !owners(e).contains_key(k),
    decreases e.len(),
{
    if e.len() > 0 && i != e.len() - 1 {
        assert forall|j: int| i < j < e.drop_last().len() implies #[trigger] e.drop_last()[j].0
            != k by {
            assert(e.drop_last()[j] == e[j]);
        }
        lemma_owners_lookup(e.drop_last(), k, i);
    }
}

/// The names in use before a batch: each existing file name, owned by the
/// first item key listed with it.
pub open spec fn existing_owners(existing: Seq<(Seq<char>, Seq<char>)>) -> Map<Seq<char>, Seq<char>>
    decreases existing.len(),
{
    if existing.len() == 0 {
        Map::empty()
    } else {
        let m = existing_owners(existing.drop_last());
        let (k, v) = existing.last();
        if m.contains_key(v) {
            m
        } else {
            m.insert(v, k)
        }
    }
}

/// The collision fallback: in order, each (rendered name, item key) keeps
/// its name unless another key owns it, in which case the key is appended;
/// either way the item's key then owns the name it got.
pub open spec fn dedup_names(
    bases: Seq<(Seq<char>, Seq<char>)>,
    taken: Map<Seq<char>, Seq<char>>,
) -> (Seq<Seq<char>>, Map<Seq<char>, Seq<char>>)
    decreases bases.len(),
{
    if bases.len() == 0 {
        (Seq::empty(), taken)
    } else {
        let (names, t) = dedup_names(bases.drop_last(), taken);
        let (b, k) = bases.last();
        if t.contains_key(b) && t[b] != k {
            let u = key_suffix_spec(b, k);
            (names.push(u), t.insert(u, k))
        } else {
            (names.push(b), t.insert(b, k))
        }
    }
}

proof fn lemma_dedup_len(bases: Seq<(Seq<char>, Seq<char>)>, taken: Map<Seq<char>, Seq<char>>)
    ensures
        dedup_names(bases, taken).0.len() == bases.len(),
    decreases bases.len(),
{
    if bases.len() > 0 {
        lemma_dedup_len(bases.drop_last(), taken);
    }
}

/// Each item's name rendered with `template`, with its key.
pub open spec fn rendered(template: Seq<char>, items: Seq<IndexedItem>) -> Seq<
    (Seq<char>, Seq<char>),
> {
    items.map_values(
        |i: IndexedItem|
            (
                render_auto_spec(template, i, template_data_spec(opt_view(i.raw_json))),
                i.item_key@,
            ),
    )
}

/// The mirror base names that a batch gives its upserted items.
pub open spec fn planned_names(
    template: Seq<char>,
    items: Seq<IndexedItem>,
    existing: Seq<(Seq<char>, Seq<char>)>,
) -> Seq<Seq<char>> {
    dedup_names(rendered(template, items), existing_owners(existing)).0
}

/// The existing name of an item key: the first entry for it.
pub open spec fn existing_name(existing: Seq<(Seq<char>, Seq<char>)>, key: Seq<char>) -> Option<
    Seq<char>,
>
    decreases existing.len(),
{
    if existing.len() == 0 {
        None
    } else if existing[0].0 == key {
        Some(existing[0].1)
    } else {
        existing_name(existing.drop_first(), key)
    }
}

fn owner_of(taken: &Vec<(Vec<char>, Vec<char>)>, name: &Vec<char>) -> (r: Option<Vec<char>>)
    ensures
        match r {
            Some(o) => owners(cpairs_view(taken@)).contains_key(name@) && owners(
                cpairs_view(taken@),
            )[name@] == o@,
            None => !owners(cpairs_view(taken@)).contains_key(name@),
        },
{
    let ghost e = cpairs_view(taken@);
    let mut j = taken.len();
    while j > 0
        invariant
            j <= taken.len(),
            e == cpairs_view(taken@),
            forall|m: int| j <= m < taken.len() ==> #[trigger] e[m].0 != name@,
        decreases j,
    {
        j -= 1;
        if chars_eq(&taken[j].0, name) {
            proof {
                lemma_owners_lookup(e, name@, j as int);
            }
            let o = crate::text::slice_chars(&taken[j].1, 0, taken[j].1.len());
            assert(o@ =~= taken@[j as int].1@);
            return Some(o);
        }
    }
    proof {
        lemma_owners_lookup(e, name@, -1);
    }
    None
}

fn existing_name_of(existing: &Vec<(String, String)>, key: &Vec<char>) -> (r: Option<Vec<char>>)
    ensures
        match r {
            Some(n) => existing_name(pairs_view(existing@), key@) == Some(n@),
            None => existing_name(pairs_view(existing@), key@) is None,
        },
{
    let ghost e = pairs_view(existing@);
    let mut i: usize = 0;
    assert(e.skip(0) =~= e);
    while i < existing.len()
        invariant
            i <= existing.len(),
            e == pairs_view(existing@),
            existing_name(e, key@) == existing_name(e.skip(i as int), key@),
        decreases existing.len() - i,
    {
        assert(e.skip(i as int)[0] == e[i as int]);
        assert(e.skip(i as int).drop_first() =~= e.skip(i + 1));
        let k = chars_of(existing[i].0.as_str());
        if chars_eq(&k, key) {
            return Some(chars_of(existing[i].1.as_str()));
        }
        i += 1;
    }
    None
}

/// `a` is `b` with its mirror base name set to `name`.
pub open spec fn renamed(a: IndexedItem, b: IndexedItem, name: Seq<char>) -> bool {
    &&& a.mirror_filename matches Some(n) && n@ == name
    &&& a == (IndexedItem { mirror_filename: a.mirror_filename, ..b })
}

fn existing_owner_entries(existing: &Vec<(String, String)>) -> (taken: Vec<(Vec<char>, Vec<char>)>)
    ensures
        owners(cpairs_view(taken@)) == existing_owners(pairs_view(existing@)),
{
    let ghost ev = pairs_view(existing@);
    let mut taken: Vec<(Vec<char>, Vec<char>)> = Vec::new();
    let mut i: usize = 0;
    assert(cpairs_view(taken@) =~= Seq::<(Seq<char>, Seq<char>)>::empty());
    assert(ev.take(0) =~= Seq::<(Seq<char>, Seq<char>)>::empty());
    while i < existing.len()
        invariant
            i <= existing.len(),
            ev == pairs_view(existing@),
            owners(cpairs_view(taken@)) == existing_owners(ev.take(i as int)),
        decreases existing.len() - i,
    {
        let v = chars_of(existing[i].1.as_str());
        let k = chars_of(existing[i].0.as_str());
        proof {
            assert(ev.take(i + 1).drop_last() =~= ev.take(i as int));
            assert(ev.take(i + 1).last() == ev[i as int]);
        }
        if owner_of(&taken, &v).is_none() {
            let ghost before = taken@;
            taken.push((v, k));
            assert(cpairs_view(taken@) =~= cpairs_view(before).push((v@, k@)));
            assert(cpairs_view(taken@).drop_last() =~= cpairs_view(before));
        }
        i += 1;
    }
    assert(ev.take(existing.len() as int) =~= ev);
    taken
}

/// Renders each item's base name with `template` and settles collisions
/// with the names in `taken` and with each other (see `dedup_names`).
fn settle_names(template: &str, items: &Vec<IndexedItem>, taken: Vec<(Vec<char>, Vec<char>)>) -> (res:
    Vec<String>)
    ensures
        strings_view(res@) == dedup_names(rendered(template@, items@), owners(cpairs_view(taken@))).0,
{
    let ghost bases = rendered(template@, items@);
    let ghost m0 = owners(cpairs_view(taken@));
    let mut taken = taken;
    let mut out: Vec<String> = Vec::new();
    let mut i: usize = 0;
    assert(bases.take(0) =~= Seq::<(Seq<char>, Seq<char>)>::empty());
    assert(strings_view(out@) =~= Seq::<Seq<char>>::empty());
    while i < items.len()
        invariant
            i <= items.len(),
            bases == rendered(template@, items@),
            owners(cpairs_view(taken@)) == dedup_names(bases.take(i as int), m0).1,
            strings_view(out@) == dedup_names(bases.take(i as int), m0).0,
        decreases items.len() - i,
    {
        let base_s = render_auto(template, &items[i]);
        let base = chars_of(base_s.as_str());
        let key = chars_of(items[i].item_key.as_str());
        proof {
            assert(bases.take(i + 1).drop_last() =~= bases.take(i as int));
            assert(bases.take(i + 1).last() == bases[i as int]);
            assert(bases[i as int] == (base@, key@));
        }
        let owner = owner_of(&taken, &base);
        let clash = match &owner {
            Some(o) => !chars_eq(o, &key),
            None => false,
        };
        let name: String;
        let ghost before = taken@;
        if clash {
            let u = with_key_suffix(base_s.as_str(), items[i].item_key.as_str());
            let uc = chars_of(u.as_str());
            taken.push((uc, key));
            name = u;
        } else {
            taken.push((base, key));
            name = base_s;
        }
        proof {
            assert(cpairs_view(taken@).drop_last() =~= cpairs_view(before));
        }
        let ghost prev_out = out@;
        out.push(name);
        proof {
            assert(strings_view(out@) =~= strings_view(prev_out).push(name@));
        }
        i += 1;
    }
    assert(bases.take(items.len() as int) =~= bases);
    out
}

proof fn lemma_strings_view_len(v: Seq<String>)
    ensures
        strings_view(v).len() == v.len(),
        forall|i: int| 0 <= i < v.len() ==> #[trigger] strings_view(v)[i] == v[i]@,
{
}

/// Renders every upserted item's base name with `template` and settles
/// collisions with names in use (see `planned_names`).
pub fn assign_mirror_names(
    template: &str,
    upserts: &mut Vec<IndexedItem>,
    existing_names: &Vec<(String, String)>,
)
    ensures
        final(upserts)@.len() == old(upserts)@.len(),
        forall|i: int|
            0 <= i < old(upserts)@.len() ==> renamed(
                #[trigger] final(upserts)@[i],
                old(upserts)@[i],
                planned_names(template@, old(upserts)@, pairs_view(existing_names@))[i],
            ),
{
    let ghost items = upserts@;
    let taken = existing_owner_entries(existing_names);
    let names = settle_names(template, upserts, taken);
    let ghost nv = planned_names(template@, items, pairs_view(existing_names@));
    proof {
        lemma_strings_view_len(names@);
        lemma_dedup_len(rendered(template@, items), existing_owners(pairs_view(existing_names@)));
    }
    let mut i: usize = 0;
    while i < upserts.len()
        invariant
            i <= upserts.len(),
            upserts@.len() == items.len(),
            names@.len() == items.len(),
            strings_view(names@) == nv,
            forall|j: int| 0 <= j < names@.len() ==> #[trigger] strings_view(names@)[j] == names@[j]@,
            forall|j: int| i <= j < items.len() ==> #[trigger] upserts@[j] == items[j],
            forall|j: int| 0 <= j < i ==> renamed(#[trigger] upserts@[j], items[j], nv[j]),
        decreases upserts.len() - i,
    {
        let mut it = upserts[i].copy();
        it.mirror_filename = Some(names[i].clone());
        upserts.set(i, it);
        proof {
            assert(strings_view(names@)[i as int] == names@[i as int]@);
        }
        i += 1;
    }
}

// ---------------------------------------------------------------------
// Refresh
// ---------------------------------------------------------------------

/// The names a refresh gives a library's items: each rendered with
/// `template`, collisions settled as the sync planner settles them, with no
/// name in use beforehand.
pub open spec fn refresh_names_spec(template: Seq<char>, items: Seq<IndexedItem>) -> Seq<Seq<char>> {
    dedup_names(rendered(template, items), Map::empty()).0
}

/// Re-renders every item's mirror base name with the current template.
pub fn refresh_names(template: &str, items: &Vec<IndexedItem>) -> (res: Vec<String>)
    ensures
        strings_view(res@) == refresh_names_spec(template@, items@),
        res@.len() == items@.len(),
{
    let taken: Vec<(Vec<char>, Vec<char>)> = Vec::new();
    proof {
        assert(owners(cpairs_view(taken@)) =~= Map::<Seq<char>, Seq<char>>::empty());
        lemma_dedup_len(rendered(template@, items@), Map::empty());
    }
    let res = settle_names(template, items, taken);
    assert(strings_view(res@).len() == res@.len());
    res
}

// ---------------------------------------------------------------------
// Mirror jobs
// ---------------------------------------------------------------------

/// One enabled platform's mirror settings as the caller resolved them: the
/// effective filename template and the mirror directory.
pub struct MirrorTarget {
    pub platform: Platform,
    pub template: String,
    pub dir: String,
}

pub open spec fn target_view(t: MirrorTarget) -> (Platform, Seq<char>) {
    (t.platform, t.dir@)
}

/// A planned job, its paths given as a directory and file names.
pub ghost struct JobPlan {
    pub operation: MirrorOperation,
    pub platform: Platform,
    pub dir: Seq<char>,
    pub old_file: Option<Seq<char>>,
    pub new_file: Option<Seq<char>>,
    pub content: Option<Seq<char>>,
}

pub open spec fn backend_of(p: Platform) -> Backend {
    match p {
        Platform::Windows => Backend::WindowsUrl,
        Platform::Macos => Backend::MacosWebloc,
    }
}

/// A base name with the platform's shortcut extension.
pub open spec fn file_name(base: Seq<char>, p: Platform) -> Seq<char> {
    base + "."@ + backend_of(p).ext_spec()
}

/// A file name that no path rule reads as a directory, root, drive or
/// parent: no `/`, `\` or `:`, and neither `.` nor `..`.
pub open spec fn plain_file(f: Seq<char>) -> bool {
    &&& !has_char(f, '/')
    &&& !has_char(f, '\\')
    &&& !has_char(f, ':')
    &&& f != seq!['.']
    &&& f != seq!['.', '.']
}

/// A directory without a Windows verbatim prefix (`\\?\`); std normalizes
/// the paths it joins under such a prefix.
pub open spec fn plain_dir(dir: Seq<char>) -> bool {
    !starts_with(dir, seq!['\\', '\\', '?', '\\'])
}

/// `p` is `f` inside `dir`, with the separator the machine's path rules put
/// between them (if any).
pub open spec fn joined(p: Seq<char>, dir: Seq<char>, f: Seq<char>) -> bool {
    p == dir + f || p == dir + seq!['/'] + f || p == dir + seq!['\\'] + f
}

pub open spec fn path_matches(o: Option<String>, dir: Seq<char>, f: Option<Seq<char>>) -> bool {
    match o {
        Some(p) => match f {
            Some(f) => plain_file(f) && plain_dir(dir) ==> joined(p@, dir, f),
            None => false,
        },
        None => f is None,
    }
}

/// A job carries out a planned one.
pub open spec fn job_matches(j: NewMirrorJob, plan: JobPlan) -> bool {
    &&& j.operation == plan.operation
    &&& j.platform == plan.platform
    &&& path_matches(j.old_path, plan.dir, plan.old_file)
    &&& path_matches(j.new_path, plan.dir, plan.new_file)
    &&& opt_view(j.content) == plan.content
}

pub open spec fn jobs_match(js: Seq<NewMirrorJob>, plans: Seq<JobPlan>) -> bool {
    js.len() == plans.len() && forall|i: int| 0 <= i < js.len() ==> job_matches(#[trigger] js[i], plans[i])
}

/// Jobs for upserted items on one platform: a rename where the item's
/// existing name differs, a create where it has none.
pub open spec fn upsert_jobs(
    p: Platform,
    dir: Seq<char>,
    entries: Seq<(Seq<char>, Seq<char>, Seq<char>)>,
    existing: Seq<(Seq<char>, Seq<char>)>,
) -> Seq<JobPlan>
    decreases entries.len(),
{
    if entries.len() == 0 {
        Seq::empty()
    } else {
        let rest = upsert_jobs(p, dir, entries.drop_last(), existing);
        let (base, key, uri) = entries.last();
        let content = Some(backend_of(p).content_spec(uri));
        match existing_name(existing, key) {
            Some(old) => if old != base {
                rest.push(
                    JobPlan {
                        operation: MirrorOperation::Rename,
                        platform: p,
                        dir,
                        old_file: Some(file_name(old, p)),
                        new_file: Some(file_name(base, p)),
                        content,
                    },
                )
            } else {
                rest
            },
            None => rest.push(
                JobPlan {
                    operation: MirrorOperation::Create,
                    platform: p,
                    dir,
                    old_file: None,
                    new_file: Some(file_name(base, p)),
                    content,
                },
            ),
        }
    }
}

/// Jobs for deleted item keys on one platform: a delete for each that has
/// an existing name.
pub open spec fn delete_jobs(
    p: Platform,
    dir: Seq<char>,
    keys: Seq<Seq<char>>,
    existing: Seq<(Seq<char>, Seq<char>)>,
) -> Seq<JobPlan>
    decreases keys.len(),
{
    if keys.len() == 0 {
        Seq::empty()
    } else {
        let rest = delete_jobs(p, dir, keys.drop_last(), existing);
        match existing_name(existing, keys.last()) {
            Some(old) => rest.push(
                JobPlan {
                    operation: MirrorOperation::Delete,
                    platform: p,
                    dir,
                    old_file: Some(file_name(old, p)),
                    new_file: None,
                    content: None,
                },
            ),
            None => rest,
        }
    }
}

/// All jobs of a batch, platform by platform.
pub open spec fn planned_jobs(
    targets: Seq<(Platform, Seq<char>)>,
    entries: Seq<(Seq<char>, Seq<char>, Seq<char>)>,
    deleted: Seq<Seq<char>>,
    existing: Seq<(Seq<char>, Seq<char>)>,
) -> Seq<JobPlan>
    decreases targets.len(),
{
    if targets.len() == 0 {
        Seq::empty()
    } else {
        let (p, dir) = targets.last();
        planned_jobs(targets.drop_last(), entries, deleted, existing) + upsert_jobs(
            p,
            dir,
            entries,
            existing,
        ) + delete_jobs(p, dir, deleted, existing)
    }
}

/// Each item's (base name, key, select URI).
pub open spec fn job_entries(names: Seq<Seq<char>>, items: Seq<IndexedItem>) -> Seq<
    (Seq<char>, Seq<char>, Seq<char>),
> {
    Seq::new(items.len(), |i: int| (names[i], items[i].item_key@, items[i].select_uri@))
}

pub open spec fn strings_view(v: Seq<String>) -> Seq<Seq<char>> {
    v.map_values(|s: String| s@)
}

/// `std::path::Path::join` of `dir` and `file`, taken back as text with
/// `to_string_lossy`. Whether and which separator goes between them depends
/// on the machine's path rules, so the contract states the forms the result
/// can take for a plain file name in a directory without a verbatim prefix
/// (std normalizes paths joined under `\\?\`), and nothing otherwise.
#[verifier::external_body]
fn path_join(dir: &str, file: &str) -> (res: String)
    ensures
        plain_file(file@) && plain_dir(dir@) ==> joined(res@, dir@, file@),
{
    std::path::Path::new(dir).join(file).to_string_lossy().into_owned()
}

fn file_name_exec(base: &Vec<char>, backend: &Backend) -> (res: String)
    ensures
        res@ == base@ + "."@ + backend.ext_spec(),
{
    let mut v = crate::text::slice_chars(base, 0, base.len());
    assert(v@ =~= base@);
    push_str(&mut v, ".");
    push_str(&mut v, backend.extension());
    string_of(v.as_slice())
}

proof fn lemma_jobs_push(js: Seq<NewMirrorJob>, ps: Seq<JobPlan>, j: NewMirrorJob, p: JobPlan)
    requires
        jobs_match(js, ps),
        job_matches(j, p),
    ensures
        jobs_match(js.push(j), ps.push(p)),
{
    assert forall|i: int| 0 <= i < js.push(j).len() implies job_matches(
        #[trigger] js.push(j)[i],
        ps.push(p)[i],
    ) by {
        if i < js.len() {
            assert(js.push(j)[i] == js[i]);
        }
    }
}

fn push_upsert_jobs(
    t: &MirrorTarget,
    upserts: &Vec<IndexedItem>,
    names: Ghost<Seq<Seq<char>>>,
    existing: &Vec<(String, String)>,
    jobs: &mut Vec<NewMirrorJob>,
    plans: Ghost<Seq<JobPlan>>,
)
    requires
        jobs_match(old(jobs)@, plans@),
        names@.len() == upserts@.len(),
        forall|i: int|
            0 <= i < upserts@.len() ==> ((#[trigger] upserts@[i]).mirror_filename matches Some(n)
                && n@ == names@[i]),
    ensures
        jobs_match(
            final(jobs)@,
            plans@ + upsert_jobs(
                t.platform,
                t.dir@,
                job_entries(names@, upserts@),
                pairs_view(existing@),
            ),
        ),
{
    let backend = backend_for(t.platform);
    assert(backend == backend_of(t.platform));
    let ghost entries = job_entries(names@, upserts@);
    let ghost ev = pairs_view(existing@);
    let mut i: usize = 0;
    assert(entries.take(0) =~= Seq::<(Seq<char>, Seq<char>, Seq<char>)>::empty());
    assert(plans@ + upsert_jobs(t.platform, t.dir@, entries.take(0), ev) =~= plans@);
    while i < upserts.len()
        invariant
            i <= upserts.len(),
            backend == backend_of(t.platform),
            entries == job_entries(names@, upserts@),
            ev == pairs_view(existing@),
            names@.len() == upserts@.len(),
            forall|k: int|
                0 <= k < upserts@.len() ==> ((#[trigger] upserts@[k]).mirror_filename matches Some(n)
                    && n@ == names@[k]),
            jobs_match(
                jobs@,
                plans@ + upsert_jobs(t.platform, t.dir@, entries.take(i as int), ev),
            ),
        decreases upserts.len() - i,
    {
        let item = &upserts[i];
        let base = match &item.mirror_filename {
            Some(n) => chars_of(n.as_str()),
            None => chars_of(render_auto(t.template.as_str(), item).as_str()),
        };
        let key = chars_of(item.item_key.as_str());
        let ghost before = plans@ + upsert_jobs(t.platform, t.dir@, entries.take(i as int), ev);
        proof {
            assert(entries.take(i + 1).drop_last() =~= entries.take(i as int));
            assert(entries.take(i + 1).last() == entries[i as int]);
            assert(entries[i as int] == (base@, key@, item.select_uri@));
        }
        let new_file = file_name_exec(&base, &backend);
        let new_path = path_join(t.dir.as_str(), new_file.as_str());
        let content = backend.build_content(item.select_uri.as_str());
        match existing_name_of(existing, &key) {
            Some(old) => {
                if !chars_eq(&old, &base) {
                    let old_file = file_name_exec(&old, &backend);
                    let old_path = path_join(t.dir.as_str(), old_file.as_str());
                    let j = NewMirrorJob {
                        operation: MirrorOperation::Rename,
                        platform: t.platform,
                        old_path: Some(old_path),
                        new_path: Some(new_path),
                        content: Some(content),
                    };
                    let ghost p = JobPlan {
                        operation: MirrorOperation::Rename,
                        platform: t.platform,
                        dir: t.dir@,
                        old_file: Some(file_name(old@, t.platform)),
                        new_file: Some(file_name(base@, t.platform)),
                        content: Some(backend_of(t.platform).content_spec(item.select_uri@)),
                    };
                    proof {
                        lemma_jobs_push(jobs@, before, j, p);
                        assert(before.push(p) =~= plans@ + upsert_jobs(
                            t.platform,
                            t.dir@,
                            entries.take(i + 1),
                            ev,
                        ));
                    }
                    jobs.push(j);
                } else {
                    assert(before =~= plans@ + upsert_jobs(
                        t.platform,
                        t.dir@,
                        entries.take(i + 1),
                        ev,
                    ));
                }
            },
            None => {
                let j = NewMirrorJob {
                    operation: MirrorOperation::Create,
                    platform: t.platform,
                    old_path: None,
                    new_path: Some(new_path),
                    content: Some(content),
                };
                let ghost p = JobPlan {
                    operation: MirrorOperation::Create,
                    platform: t.platform,
                    dir: t.dir@,
                    old_file: None,
                    new_file: Some(file_name(base@, t.platform)),
                    content: Some(backend_of(t.platform).content_spec(item.select_uri@)),
                };
                proof {
                    lemma_jobs_push(jobs@, before, j, p);
                    assert(before.push(p) =~= plans@ + upsert_jobs(
                        t.platform,
                        t.dir@,
                        entries.take(i + 1),
                        ev,
                    ));
                }
                jobs.push(j);
            },
        }
        i += 1;
    }
    assert(entries.take(upserts.len() as int) =~= entries);
}

fn push_delete_jobs(
    t: &MirrorTarget,
    deleted_keys: &Vec<String>,
    existing: &Vec<(String, String)>,
    jobs: &mut Vec<NewMirrorJob>,
    plans: Ghost<Seq<JobPlan>>,
)
    requires
        jobs_match(old(jobs)@, plans@),
    ensures
        jobs_match(
            final(jobs)@,
            plans@ + delete_jobs(
                t.platform,
                t.dir@,
                strings_view(deleted_keys@),
                pairs_view(existing@),
            ),
        ),
{
    let backend = backend_for(t.platform);
    assert(backend == backend_of(t.platform));
    let ghost keys = strings_view(deleted_keys@);
    let ghost ev = pairs_view(existing@);
    let mut i: usize = 0;
    assert(keys.take(0) =~= Seq::<Seq<char>>::empty());
    assert(plans@ + delete_jobs(t.platform, t.dir@, keys.take(0), ev) =~= plans@);
    while i < deleted_keys.len()
        invariant
            i <= deleted_keys.len(),
            backend == backend_of(t.platform),
            keys == strings_view(deleted_keys@),
            ev == pairs_view(existing@),
            jobs_match(jobs@, plans@ + delete_jobs(t.platform, t.dir@, keys.take(i as int), ev)),
        decreases deleted_keys.len() - i,
    {
        let key = chars_of(deleted_keys[i].as_str());
        let ghost before = plans@ + delete_jobs(t.platform, t.dir@, keys.take(i as int), ev);
        proof {
            assert(keys.take(i + 1).drop_last() =~= keys.take(i as int));
            assert(keys.take(i + 1).last() == key@);
        }
        match existing_name_of(existing, &key) {
            Some(old) => {
                let old_file = file_name_exec(&old, &backend);
                let old_path = path_join(t.dir.as_str(), old_file.as_str());
                let j = NewMirrorJob {
                    operation: MirrorOperation::Delete,
                    platform: t.platform,
                    old_path: Some(old_path),
                    new_path: None,
                    content: None,
                };
                let ghost p = JobPlan {
                    operation: MirrorOperation::Delete,
                    platform: t.platform,
                    dir: t.dir@,
                    old_file: Some(file_name(old@, t.platform)),
                    new_file: None,
                    content: None,
                };
                proof {
                    lemma_jobs_push(jobs@, before, j, p);
                    assert(before.push(p) =~= plans@ + delete_jobs(
                        t.platform,
                        t.dir@,
                        keys.take(i + 1),
                        ev,
                    ));
                }
                jobs.push(j);
            },
            None => {
                assert(before =~= plans@ + delete_jobs(t.platform, t.dir@, keys.take(i + 1), ev));
            },
        }
        i += 1;
    }
    assert(keys.take(deleted_keys.len() as int) =~= keys);
}

/// What planning the mirror jobs of a batch gives: with no platform enabled,
/// nothing; else the items named by `planned_names` (first platform's
/// template) and the jobs of `planned_jobs`.
pub open spec fn mirror_plan(
    targets: Seq<MirrorTarget>,
    before: Seq<IndexedItem>,
    after: Seq<IndexedItem>,
    jobs: Seq<NewMirrorJob>,
    deleted_keys: Seq<String>,
    existing_names: Seq<(String, String)>,
) -> bool {
    if targets.len() == 0 {
        after == before && jobs.len() == 0
    } else {
        let names = planned_names(targets[0].template@, before, pairs_view(existing_names));
        &&& after.len() == before.len()
        &&& forall|i: int|
            0 <= i < before.len() ==> renamed(#[trigger] after[i], before[i], names[i])
        &&& jobs_match(
            jobs,
            planned_jobs(
                targets.map_values(|t: MirrorTarget| target_view(t)),
                job_entries(names, before),
                strings_view(deleted_keys),
                pairs_view(existing_names),
            ),
        )
    }
}

/// Plan mirror jobs for one sync batch, and stamp each upserted item with
/// its mirror base name. `targets` holds the enabled platforms in order; the
/// first one's template names the items (see `planned_names`). For each
/// platform in turn come the jobs of the upserted items, then those of the
/// deleted keys (see `planned_jobs`). With no platform enabled nothing
/// changes.
pub fn plan_mirror_jobs(
    targets: &Vec<MirrorTarget>,
    upserts: &mut Vec<IndexedItem>,
    deleted_keys: &Vec<String>,
    existing_names: &Vec<(String, String)>,
) -> (jobs: Vec<NewMirrorJob>)
    ensures
        mirror_plan(
            targets@,
            old(upserts)@,
            final(upserts)@,
            jobs@,
            deleted_keys@,
            existing_names@,
        ),
{
    let mut jobs: Vec<NewMirrorJob> = Vec::new();
    if targets.len() == 0 {
        return jobs;
    }
    let ghost items = upserts@;
    let ghost names = planned_names(targets@[0].template@, items, pairs_view(existing_names@));
    proof {
        lemma_dedup_len(
            rendered(targets@[0].template@, items),
            existing_owners(pairs_view(existing_names@)),
        );
    }
    assign_mirror_names(targets[0].template.as_str(), upserts, existing_names);
    let ghost final_items = upserts@;
    proof {
        assert forall|k: int| 0 <= k < final_items.len() implies #[trigger] job_entries(
            names,
            final_items,
        )[k] == job_entries(names, items)[k] by {
            assert(renamed(final_items[k], items[k], names[k]));
        }
        assert(job_entries(names, final_items) =~= job_entries(names, items));
    }
    let ghost tv = targets@.map_values(|t: MirrorTarget| target_view(t));
    let ghost entries = job_entries(names, items);
    let ghost dv = strings_view(deleted_keys@);
    let ghost ev = pairs_view(existing_names@);
    let mut ti: usize = 0;
    assert(tv.take(0) =~= Seq::<(Platform, Seq<char>)>::empty());
    while ti < targets.len()
        invariant
            ti <= targets.len(),
            upserts@ == final_items,
            final_items.len() == items.len(),
            names.len() == items.len(),
            forall|k: int|
                0 <= k < final_items.len() ==> ((#[trigger] final_items[k]).mirror_filename matches Some(n)
                    && n@ == names[k]),
            job_entries(names, final_items) == entries,
            tv == targets@.map_values(|t: MirrorTarget| target_view(t)),
            dv == strings_view(deleted_keys@),
            ev == pairs_view(existing_names@),
            jobs_match(jobs@, planned_jobs(tv.take(ti as int), entries, dv, ev)),
        decreases targets.len() - ti,
    {
        let t = &targets[ti];
        let ghost p0 = planned_jobs(tv.take(ti as int), entries, dv, ev);
        push_upsert_jobs(t, upserts, Ghost(names), existing_names, &mut jobs, Ghost(p0));
        let ghost p1 = p0 + upsert_jobs(t.platform, t.dir@, entries, ev);
        push_delete_jobs(t, deleted_keys, existing_names, &mut jobs, Ghost(p1));
        proof {
            assert(tv.take(ti + 1).drop_last() =~= tv.take(ti as int));
            assert(tv.take(ti + 1).last() == target_view(*t));
        }
        ti += 1;
    }
    assert(tv.take(targets.len() as int) =~= tv);
    jobs
}

// ---------------------------------------------------------------------
// Refresh jobs
// ---------------------------------------------------------------------

/// The item's stored base name is not `base`.
pub open spec fn name_changed(item: IndexedItem, base: Seq<char>) -> bool {
    !(item.mirror_filename matches Some(n) && n@ == base)
}

/// Refresh jobs for one item, platform by platform: nothing where the name
/// is unchanged and the file is `present`; else a rename from the stored
/// name when there is one and it changed, a create otherwise.
pub open spec fn refresh_item_jobs(
    targets: Seq<(Platform, Seq<char>)>,
    present: Seq<bool>,
    item: IndexedItem,
    base: Seq<char>,
) -> Seq<JobPlan>
    decreases targets.len(),
{
    if targets.len() == 0 {
        Seq::empty()
    } else {
        let rest = refresh_item_jobs(targets.drop_last(), present, item, base);
        let (p, dir) = targets.last();
        let changed = name_changed(item, base);
        if !changed && present[targets.len() - 1] {
            rest
        } else {
            let content = Some(backend_of(p).content_spec(item.select_uri@));
            if changed && item.mirror_filename is Some {
                rest.push(
                    JobPlan {
                        operation: MirrorOperation::Rename,
                        platform: p,
                        dir,
                        old_file: Some(file_name(item.mirror_filename->0@, p)),
                        new_file: Some(file_name(base, p)),
                        content,
                    },
                )
            } else {
                rest.push(
                    JobPlan {
                        operation: MirrorOperation::Create,
                        platform: p,
                        dir,
                        old_file: None,
                        new_file: Some(file_name(base, p)),
                        content,
                    },
                )
            }
        }
    }
}

/// Whether each target's file for item `i` exists.
pub open spec fn present_column(present: Seq<Seq<bool>>, i: int) -> Seq<bool> {
    Seq::new(present.len(), |t: int| present[t][i])
}

/// Refresh jobs for all items, item by item.
pub open spec fn refresh_jobs(
    targets: Seq<(Platform, Seq<char>)>,
    present: Seq<Seq<bool>>,
    items: Seq<IndexedItem>,
    names: Seq<Seq<char>>,
) -> Seq<JobPlan>
    decreases items.len(),
{
    if items.len() == 0 {
        Seq::empty()
    } else {
        let i = items.len() - 1;
        refresh_jobs(targets, present, items.drop_last(), names) + refresh_item_jobs(
            targets,
            present_column(present, i),
            items.last(),
            names[i],
        )
    }
}

/// The positions of the items whose name changed, in order.
pub open spec fn changed_positions(items: Seq<IndexedItem>, names: Seq<Seq<char>>) -> Seq<int>
    decreases items.len(),
{
    if items.len() == 0 {
        Seq::empty()
    } else {
        let i = items.len() - 1;
        let rest = changed_positions(items.drop_last(), names);
        if name_changed(items[i], names[i]) {
            rest.push(i)
        } else {
            rest
        }
    }
}

pub open spec fn count_op(plans: Seq<JobPlan>, op: MirrorOperation) -> nat
    decreases plans.len(),
{
    if plans.len() == 0 {
        0
    } else {
        count_op(plans.drop_last(), op) + if plans.last().operation == op {
            1nat
        } else {
            0nat
        }
    }
}

proof fn lemma_count_op_append(a: Seq<JobPlan>, b: Seq<JobPlan>, op: MirrorOperation)
    ensures
        count_op(a + b, op) == count_op(a, op) + count_op(b, op),
    decreases b.len(),
{
    if b.len() == 0 {
        assert(a + b =~= a);
    } else {
        lemma_count_op_append(a, b.drop_last(), op);
        assert((a + b).drop_last() =~= a + b.drop_last());
    }
}

/// What a refresh of one library does.
pub struct RefreshPlan {
    /// Items whose stored name changed, with the new name.
    pub upserts: Vec<IndexedItem>,
    pub jobs: Vec<NewMirrorJob>,
    pub report: MirrorRefreshReport,
}

fn refresh_one(
    targets: &Vec<MirrorTarget>,
    present: &Vec<Vec<bool>>,
    i: usize,
    item: &IndexedItem,
    base: &String,
    jobs: &mut Vec<NewMirrorJob>,
    plans: Ghost<Seq<JobPlan>>,
)
    requires
        jobs_match(old(jobs)@, plans@),
        present@.len() == targets@.len(),
        forall|t: int| 0 <= t < present@.len() ==> i < (#[trigger] present@[t])@.len(),
    ensures
        jobs_match(
            final(jobs)@,
            plans@ + refresh_item_jobs(
                targets@.map_values(|t: MirrorTarget| target_view(t)),
                present_column(present@.map_values(|r: Vec<bool>| r@), i as int),
                *item,
                base@,
            ),
        ),
{
    let ghost tv = targets@.map_values(|t: MirrorTarget| target_view(t));
    let ghost col = present_column(present@.map_values(|r: Vec<bool>| r@), i as int);
    let changed = match &item.mirror_filename {
        Some(n) => !crate::text::str_eq(n.as_str(), base.as_str()),
        None => true,
    };
    assert(changed == name_changed(*item, base@));
    let base_c = chars_of(base.as_str());
    let mut ti: usize = 0;
    assert(tv.take(0) =~= Seq::<(Platform, Seq<char>)>::empty());
    assert(plans@ + refresh_item_jobs(tv.take(0), col, *item, base@) =~= plans@);
    while ti < targets.len()
        invariant
            ti <= targets.len(),
            tv == targets@.map_values(|t: MirrorTarget| target_view(t)),
            col == present_column(present@.map_values(|r: Vec<bool>| r@), i as int),
            present@.len() == targets@.len(),
            forall|t: int| 0 <= t < present@.len() ==> i < (#[trigger] present@[t])@.len(),
            changed == name_changed(*item, base@),
            base_c@ == base@,
            jobs_match(jobs@, plans@ + refresh_item_jobs(tv.take(ti as int), col, *item, base@)),
        decreases targets.len() - ti,
    {
        let t = &targets[ti];
        let ghost before = plans@ + refresh_item_jobs(tv.take(ti as int), col, *item, base@);
        proof {
            assert(tv.take(ti + 1).drop_last() =~= tv.take(ti as int));
            assert(tv.take(ti + 1).last() == target_view(*t));
            assert(col[ti as int] == present@[ti as int]@[i as int]);
        }
        let here = present[ti][i];
        if !changed && here {
            assert(before =~= plans@ + refresh_item_jobs(tv.take(ti + 1), col, *item, base@));
        } else {
            let backend = backend_for(t.platform);
            assert(backend == backend_of(t.platform));
            let new_file = file_name_exec(&base_c, &backend);
            let new_path = path_join(t.dir.as_str(), new_file.as_str());
            let content = backend.build_content(item.select_uri.as_str());
            let ghost c = Some(backend_of(t.platform).content_spec(item.select_uri@));
            match &item.mirror_filename {
                Some(old) => {
                    if changed {
                        let old_c = chars_of(old.as_str());
                        let old_file = file_name_exec(&old_c, &backend);
                        let old_path = path_join(t.dir.as_str(), old_file.as_str());
                        let j = NewMirrorJob {
                            operation: MirrorOperation::Rename,
                            platform: t.platform,
                            old_path: Some(old_path),
                            new_path: Some(new_path),
                            content: Some(content),
                        };
                        let ghost p = JobPlan {
                            operation: MirrorOperation::Rename,
                            platform: t.platform,
                            dir: t.dir@,
                            old_file: Some(file_name(old@, t.platform)),
                            new_file: Some(file_name(base@, t.platform)),
                            content: c,
                        };
                        proof {
                            lemma_jobs_push(jobs@, before, j, p);
                            assert(before.push(p) =~= plans@ + refresh_item_jobs(
                                tv.take(ti + 1),
                                col,
                                *item,
                                base@,
                            ));
                        }
                        jobs.push(j);
                    } else {
                        let j = NewMirrorJob {
                            operation: MirrorOperation::Create,
                            platform: t.platform,
                            old_path: None,
                            new_path: Some(new_path),
                            content: Some(content),
                        };
                        let ghost p = JobPlan {
                            operation: MirrorOperation::Create,
                            platform: t.platform,
                            dir: t.dir@,
                            old_file: None,
                            new_file: Some(file_name(base@, t.platform)),
                            content: c,
                        };
                        proof {
                            lemma_jobs_push(jobs@, before, j, p);
                            assert(before.push(p) =~= plans@ + refresh_item_jobs(
                                tv.take(ti + 1),
                                col,
                                *item,
                                base@,
                            ));
                        }
                        jobs.push(j);
                    }
                },
                None => {
                    let j = NewMirrorJob {
                        operation: MirrorOperation::Create,
                        platform: t.platform,
                        old_path: None,
                        new_path: Some(new_path),
                        content: Some(content),
                    };
                    let ghost p = JobPlan {
                        operation: MirrorOperation::Create,
                        platform: t.platform,
                        dir: t.dir@,
                        old_file: None,
                        new_file: Some(file_name(base@, t.platform)),
                        content: c,
                    };
                    proof {
                        lemma_jobs_push(jobs@, before, j, p);
                        assert(before.push(p) =~= plans@ + refresh_item_jobs(
                            tv.take(ti + 1),
                            col,
                            *item,
                            base@,
                        ));
                    }
                    jobs.push(j);
                },
            }
        }
        ti += 1;
    }
    assert(tv.take(targets.len() as int) =~= tv);
}

spec fn count_jobs_spec(js: Seq<NewMirrorJob>, op: MirrorOperation) -> nat
    decreases js.len(),
{
    if js.len() == 0 {
        0
    } else {
        count_jobs_spec(js.drop_last(), op) + if js.last().operation == op {
            1nat
        } else {
            0nat
        }
    }
}

proof fn lemma_count_matches(js: Seq<NewMirrorJob>, ps: Seq<JobPlan>, op: MirrorOperation)
    requires
        jobs_match(js, ps),
    ensures
        count_jobs_spec(js, op) == count_op(ps, op),
    decreases js.len(),
{
    if js.len() > 0 {
        assert(jobs_match(js.drop_last(), ps.drop_last())) by {
            assert forall|i: int| 0 <= i < js.drop_last().len() implies job_matches(
                #[trigger] js.drop_last()[i],
                ps.drop_last()[i],
            ) by {
                assert(job_matches(js[i], ps[i]));
            }
        }
        lemma_count_matches(js.drop_last(), ps.drop_last(), op);
        assert(job_matches(js[js.len() - 1], ps[ps.len() - 1]));
    }
}

fn count_jobs(js: &Vec<NewMirrorJob>, op: MirrorOperation) -> (res: usize)
    ensures
        res == count_jobs_spec(js@, op),
{
    let mut n: usize = 0;
    let mut i: usize = 0;
    while i < js.len()
        invariant
            i <= js.len(),
            n == count_jobs_spec(js@.take(i as int), op),
            n <= i,
        decreases js.len() - i,
    {
        assert(js@.take(i + 1).drop_last() =~= js@.take(i as int));
        if js[i].operation == op {
            n += 1;
        }
        i += 1;
    }
    assert(js@.take(js.len() as int) =~= js@);
    n
}

/// Plan the refresh of one library: `names` are the items' new base names
/// (`refresh_names`), and `present[t][i]` tells whether target `t`'s file
/// for item `i` under its new name exists. Items whose stored name changed
/// come back renamed, in order; the jobs are those of `refresh_jobs`; the
/// report counts renames, creates and items whose name stayed.
pub fn plan_refresh(
    targets: &Vec<MirrorTarget>,
    items: &Vec<IndexedItem>,
    names: &Vec<String>,
    present: &Vec<Vec<bool>>,
) -> (res: RefreshPlan)
    requires
        names@.len() == items@.len(),
        present@.len() == targets@.len(),
        forall|t: int| 0 <= t < present@.len() ==> (#[trigger] present@[t])@.len() == items@.len(),
    ensures
        ({
            let plans = refresh_jobs(
                targets@.map_values(|t: MirrorTarget| target_view(t)),
                present@.map_values(|r: Vec<bool>| r@),
                items@,
                strings_view(names@),
            );
            let pos = changed_positions(items@, strings_view(names@));
            &&& jobs_match(res.jobs@, plans)
            &&& res.report.renamed == count_op(plans, MirrorOperation::Rename)
            &&& res.report.rewritten == count_op(plans, MirrorOperation::Create)
            &&& res.report.unchanged == items@.len() - pos.len()
            &&& res.upserts@.len() == pos.len()
            &&& forall|j: int|
                0 <= j < pos.len() ==> renamed(
                    #[trigger] res.upserts@[j],
                    items@[pos[j]],
                    strings_view(names@)[pos[j]],
                )
        }),
{
    let ghost tv = targets@.map_values(|t: MirrorTarget| target_view(t));
    let ghost pv = present@.map_values(|r: Vec<bool>| r@);
    let ghost nv = strings_view(names@);
    let mut jobs: Vec<NewMirrorJob> = Vec::new();
    let mut upserts: Vec<IndexedItem> = Vec::new();
    let mut unchanged: usize = 0;
    let mut i: usize = 0;
    assert(items@.take(0) =~= Seq::<IndexedItem>::empty());
    while i < items.len()
        invariant
            i <= items.len(),
            names@.len() == items@.len(),
            present@.len() == targets@.len(),
            forall|t: int| 0 <= t < present@.len() ==> (#[trigger] present@[t])@.len() == items@.len(),
            tv == targets@.map_values(|t: MirrorTarget| target_view(t)),
            pv == present@.map_values(|r: Vec<bool>| r@),
            nv == strings_view(names@),
            jobs_match(jobs@, refresh_jobs(tv, pv, items@.take(i as int), nv)),
            upserts@.len() == changed_positions(items@.take(i as int), nv).len(),
            forall|j: int|
                0 <= j < upserts@.len() ==> renamed(
                    #[trigger] upserts@[j],
                    items@[changed_positions(items@.take(i as int), nv)[j]],
                    nv[changed_positions(items@.take(i as int), nv)[j]],
                ),
            unchanged + changed_positions(items@.take(i as int), nv).len() == i,
        decreases items.len() - i,
    {
        let item = &items[i];
        let ghost prev = refresh_jobs(tv, pv, items@.take(i as int), nv);
        let ghost prev_pos = changed_positions(items@.take(i as int), nv);
        proof {
            assert(items@.take(i + 1).drop_last() =~= items@.take(i as int));
            assert(items@.take(i + 1).last() == items@[i as int]);
            assert(nv[i as int] == names@[i as int]@);
        }
        refresh_one(targets, present, i, item, &names[i], &mut jobs, Ghost(prev));
        let changed = match &item.mirror_filename {
            Some(n) => !crate::text::str_eq(n.as_str(), names[i].as_str()),
            None => true,
        };
        if changed {
            let mut it = item.copy();
            it.mirror_filename = Some(names[i].clone());
            let ghost before = upserts@;
            upserts.push(it);
            proof {
                let np = changed_positions(items@.take(i + 1), nv);
                assert(np =~= prev_pos.push(i as int));
                assert forall|j: int| 0 <= j < upserts@.len() implies renamed(
                    #[trigger] upserts@[j],
                    items@[np[j]],
                    nv[np[j]],
                ) by {
                    if j < before.len() {
                        assert(upserts@[j] == before[j]);
                        assert(np[j] == prev_pos[j]);
                    }
                }
            }
        } else {
            unchanged += 1;
        }
        i += 1;
    }
    assert(items@.take(items.len() as int) =~= items@);
    let ghost plans = refresh_jobs(tv, pv, items@, nv);
    proof {
        lemma_count_matches(jobs@, plans, MirrorOperation::Rename);
        lemma_count_matches(jobs@, plans, MirrorOperation::Create);
    }
    let renamed_n = count_jobs(&jobs, MirrorOperation::Rename);
    let rewritten_n = count_jobs(&jobs, MirrorOperation::Create);
    RefreshPlan {
        upserts,
        jobs,
        report: MirrorRefreshReport { renamed: renamed_n, rewritten: rewritten_n, unchanged },
    }
}

// ---------------------------------------------------------------------
// Committing a library's changes
// ---------------------------------------------------------------------

/// What the index already holds of an item: its content hash, version and
/// stored JSON.
pub struct StoredItem {
    pub content_hash: String,
    pub item_version: u64,
    pub raw_json: Option<String>,
}

/// The JSON text kept with item `i` (when the configuration keeps it).
pub open spec fn kept_json(config: Config, raw_jsons: Seq<Option<String>>, i: int) -> Option<
    String,
> {
    if config.search.store_raw_json {
        raw_jsons[i]
    } else {
        None
    }
}

/// The item leaves the index: an excluded type, or in the trash.
pub open spec fn dropped(raw: ZoteroItem) -> bool {
    excluded_type(raw.data.item_type@) || trashed(raw.data.deleted)
}

/// Normalizing `raw` gives what the index holds already: the same content
/// hash, version and stored JSON.
pub open spec fn unchanged_item(
    stored: Option<StoredItem>,
    raw: ZoteroItem,
    json: Option<String>,
    config: Config,
) -> bool {
    match stored {
        Some(old) => old.content_hash@ == norm_hash(
            raw,
            config.search.index_abstract,
            config.search.index_extra,
        ) && old.item_version == raw.version && opt_view(old.raw_json) == opt_view(json),
        None => false,
    }
}

/// The positions of the raw items that become upserts, in order.
pub open spec fn upsert_positions(
    raws: Seq<ZoteroItem>,
    raw_jsons: Seq<Option<String>>,
    stored: Seq<Option<StoredItem>>,
    config: Config,
) -> Seq<int>
    decreases raws.len(),
{
    if raws.len() == 0 {
        Seq::empty()
    } else {
        let i = raws.len() - 1;
        let rest = upsert_positions(raws.drop_last(), raw_jsons, stored, config);
        if !dropped(raws[i]) && !unchanged_item(stored[i], raws[i], kept_json(config, raw_jsons, i), config) {
            rest.push(i)
        } else {
            rest
        }
    }
}

proof fn lemma_positions_bounds(
    raws: Seq<ZoteroItem>,
    raw_jsons: Seq<Option<String>>,
    stored: Seq<Option<StoredItem>>,
    config: Config,
)
    ensures
        forall|j: int|
            0 <= j < upsert_positions(raws, raw_jsons, stored, config).len() ==> 0 <= #[trigger] upsert_positions(
                raws,
                raw_jsons,
                stored,
                config,
            )[j] < raws.len(),
    decreases raws.len(),
{
    if raws.len() > 0 {
        lemma_positions_bounds(raws.drop_last(), raw_jsons, stored, config);
        let rest = upsert_positions(raws.drop_last(), raw_jsons, stored, config);
        let all = upsert_positions(raws, raw_jsons, stored, config);
        assert forall|j: int| 0 <= j < all.len() implies 0 <= #[trigger] all[j] < raws.len() by {
            if j < rest.len() {
                assert(rest[j] < raws.drop_last().len());
                if all.len() > rest.len() {
                    assert(all[j] == rest.push(raws.len() - 1)[j]);
                }
            }
        }
    }
}

/// How many raw items are skipped as unchanged.
pub open spec fn skipped_count(
    raws: Seq<ZoteroItem>,
    raw_jsons: Seq<Option<String>>,
    stored: Seq<Option<StoredItem>>,
    config: Config,
) -> nat
    decreases raws.len(),
{
    if raws.len() == 0 {
        0
    } else {
        let i = raws.len() - 1;
        skipped_count(raws.drop_last(), raw_jsons, stored, config) + if !dropped(raws[i])
            && unchanged_item(stored[i], raws[i], kept_json(config, raw_jsons, i), config) {
            1nat
        } else {
            0nat
        }
    }
}

/// The deleted keys, followed by the keys of dropped items not yet among
/// them.
pub open spec fn extended_deleted(deleted: Seq<Seq<char>>, raws: Seq<ZoteroItem>) -> Seq<Seq<char>>
    decreases raws.len(),
{
    if raws.len() == 0 {
        deleted
    } else {
        let d = extended_deleted(deleted, raws.drop_last());
        let k = raws.last().key@;
        if dropped(raws.last()) && !d.contains(k) {
            d.push(k)
        } else {
            d
        }
    }
}

/// The upserts that normalizing a library's changed items gives.
pub open spec fn selected(
    pre: Seq<IndexedItem>,
    raws: Seq<ZoteroItem>,
    raw_jsons: Seq<Option<String>>,
    stored: Seq<Option<StoredItem>>,
    remote: RemoteLibrary,
    lib_id: i64,
    config: Config,
) -> bool {
    let pos = upsert_positions(raws, raw_jsons, stored, config);
    &&& pre.len() == pos.len()
    &&& forall|j: int|
        0 <= j < pre.len() ==> normalized_from(
            #[trigger] pre[j],
            raws[pos[j]],
            remote,
            lib_id,
            kept_json(config, raw_jsons, pos[j]),
            config.search.index_abstract,
            config.search.index_extra,
        )
}

fn contains_key(keys: &Vec<String>, k: &String) -> (res: bool)
    ensures
        res == strings_view(keys@).contains(k@),
{
    let mut i: usize = 0;
    while i < keys.len()
        invariant
            i <= keys.len(),
            forall|j: int| 0 <= j < i ==> keys@[j]@ != k@,
        decreases keys.len() - i,
    {
        if crate::text::str_eq(keys[i].as_str(), k.as_str()) {
            assert(strings_view(keys@)[i as int] == k@);
            return true;
        }
        i += 1;
    }
    proof {
        if strings_view(keys@).contains(k@) {
            let j = choose|j: int| 0 <= j < strings_view(keys@).len() && strings_view(keys@)[j] == k@;
            assert(keys@[j]@ == k@);
        }
    }
    false
}

/// Normalizes the raw items of one sync round: dropped items join
/// `deleted`, items the index holds unchanged are counted and skipped, the
/// rest come back as upserts.
pub fn select_upserts(
    raws: &Vec<ZoteroItem>,
    raw_jsons: &Vec<Option<String>>,
    stored: &Vec<Option<StoredItem>>,
    remote: &RemoteLibrary,
    lib_id: i64,
    config: &Config,
    deleted: &mut Vec<String>,
) -> (res: (Vec<IndexedItem>, usize))
    requires
        raw_jsons@.len() == raws@.len(),
        stored@.len() == raws@.len(),
    ensures
        strings_view(final(deleted)@) == extended_deleted(strings_view(old(deleted)@), raws@),
        selected(res.0@, raws@, raw_jsons@, stored@, *remote, lib_id, *config),
        res.1 == skipped_count(raws@, raw_jsons@, stored@, *config),
{
    let ghost d0 = strings_view(deleted@);
    let mut upserts: Vec<IndexedItem> = Vec::new();
    let mut skipped: usize = 0;
    let mut i: usize = 0;
    assert(raws@.take(0) =~= Seq::<ZoteroItem>::empty());
    while i < raws.len()
        invariant
            i <= raws.len(),
            raw_jsons@.len() == raws@.len(),
            stored@.len() == raws@.len(),
            strings_view(deleted@) == extended_deleted(d0, raws@.take(i as int)),
            selected(upserts@, raws@.take(i as int), raw_jsons@, stored@, *remote, lib_id, *config),
            skipped == skipped_count(raws@.take(i as int), raw_jsons@, stored@, *config),
            skipped <= i,
        decreases raws.len() - i,
    {
        let raw = &raws[i];
        let ghost t = raws@.take(i + 1);
        proof {
            assert(t.drop_last() =~= raws@.take(i as int));
            assert(t.last() == raws@[i as int]);
            assert forall|j: int| 0 <= j <= i implies #[trigger] t[j] == raws@[j] by {}
        }
        let json = if config.search.store_raw_json {
            crate::text::copy_opt_string(&raw_jsons[i])
        } else {
            None
        };
        assert(json == kept_json(*config, raw_jsons@, i as int));
        let ghost prev_pos = upsert_positions(raws@.take(i as int), raw_jsons@, stored@, *config);
        let ghost prev_up = upserts@;
        proof {
            lemma_positions_bounds(raws@.take(i as int), raw_jsons@, stored@, *config);
        }
        match normalize_item(
            raw,
            remote,
            lib_id,
            json,
            config.search.index_abstract,
            config.search.index_extra,
        ) {
            Some(item) => {
                proof {
                    crate::normalizer::lemma_normalized_hash(
                        item,
                        *raw,
                        *remote,
                        lib_id,
                        kept_json(*config, raw_jsons@, i as int),
                        config.search.index_abstract,
                        config.search.index_extra,
                    );
                }
                let same = match &stored[i] {
                    Some(old) => crate::text::str_eq(
                        old.content_hash.as_str(),
                        item.content_hash.as_str(),
                    ) && old.item_version == item.item_version && match (&old.raw_json, &item.raw_json) {
                        (Some(a), Some(b)) => crate::text::str_eq(a.as_str(), b.as_str()),
                        (None, None) => true,
                        _ => false,
                    },
                    None => false,
                };
                assert(same == unchanged_item(
                    stored@[i as int],
                    *raw,
                    kept_json(*config, raw_jsons@, i as int),
                    *config,
                ));
                if same {
                    skipped += 1;
                } else {
                    upserts.push(item);
                    proof {
                        let np = upsert_positions(t, raw_jsons@, stored@, *config);
                        assert(np =~= prev_pos.push(i as int));
                        assert forall|j: int| 0 <= j < upserts@.len() implies normalized_from(
                            #[trigger] upserts@[j],
                            t[np[j]],
                            *remote,
                            lib_id,
                            kept_json(*config, raw_jsons@, np[j]),
                            config.search.index_abstract,
                            config.search.index_extra,
                        ) by {
                            if j < prev_up.len() {
                                assert(upserts@[j] == prev_up[j]);
                                assert(np[j] == prev_pos[j]);
                                assert(raws@.take(i as int)[prev_pos[j]] == t[prev_pos[j]]);
                            }
                        }
                    }
                }
            },
            None => {
                if !contains_key(deleted, &raw.key) {
                    let ghost before = deleted@;
                    deleted.push(raw.key.clone());
                    assert(strings_view(deleted@) =~= strings_view(before).push(raw.key@));
                }
            },
        }
        proof {
            let np = upsert_positions(t, raw_jsons@, stored@, *config);
            assert forall|j: int| 0 <= j < upserts@.len() implies normalized_from(
                #[trigger] upserts@[j],
                t[np[j]],
                *remote,
                lib_id,
                kept_json(*config, raw_jsons@, np[j]),
                config.search.index_abstract,
                config.search.index_extra,
            ) by {
                if dropped(*raw) || unchanged_item(stored@[i as int], *raw, kept_json(*config, raw_jsons@, i as int), *config) {
                    assert(np == prev_pos);
                    assert(raws@.take(i as int)[prev_pos[j]] == t[prev_pos[j]]);
                }
            }
        }
        i += 1;
    }
    assert(raws@.take(raws.len() as int) =~= raws@);
    (upserts, skipped)
}

/// The batch of one library's round: the deleted keys extended with the
/// dropped items' keys, the new version, and the upserts that
/// `select_upserts` gives, named and with jobs as `plan_mirror_jobs` plans
/// them.
pub open spec fn commit_result(
    batch: SyncBatch,
    lib_id: i64,
    remote: RemoteLibrary,
    items: Seq<ZoteroItem>,
    raw_jsons: Seq<Option<String>>,
    stored: Seq<Option<StoredItem>>,
    deleted_keys: Seq<String>,
    new_version: u64,
    config: Config,
    targets: Seq<MirrorTarget>,
    existing_names: Seq<(String, String)>,
) -> bool {
    &&& strings_view(batch.deleted_keys@) == extended_deleted(strings_view(deleted_keys), items)
    &&& batch.new_version == new_version
    &&& exists|pre: Seq<IndexedItem>|
        selected(pre, items, raw_jsons, stored, remote, lib_id, config) && mirror_plan(
            targets,
            pre,
            batch.upserts@,
            batch.mirror_jobs@,
            batch.deleted_keys@,
            existing_names,
        )
}

/// Turns one library's fetched changes into the batch to commit and its
/// report. `raw_jsons[i]` is the JSON text of `items[i]` and `stored[i]`
/// what the index holds under its key; `targets` are the enabled
/// platforms' mirror settings and `existing_names` the mirror base names of
/// the touched keys. The batch holds the upserts that `select_upserts`
/// gives, named and with jobs as `plan_mirror_jobs` plans them, and the
/// deleted keys extended with the dropped items' keys.
pub fn commit_library_changes(
    lib_id: i64,
    remote: &RemoteLibrary,
    items: &Vec<ZoteroItem>,
    raw_jsons: &Vec<Option<String>>,
    stored: &Vec<Option<StoredItem>>,
    deleted_keys: Vec<String>,
    since: u64,
    new_version: u64,
    full: bool,
    config: &Config,
    targets: &Vec<MirrorTarget>,
    existing_names: &Vec<(String, String)>,
) -> (res: (SyncBatch, LibrarySyncReport))
    requires
        raw_jsons@.len() == items@.len(),
        stored@.len() == items@.len(),
    ensures
        commit_result(
            res.0,
            lib_id,
            *remote,
            items@,
            raw_jsons@,
            stored@,
            deleted_keys@,
            new_version,
            *config,
            targets@,
            existing_names@,
        ),
        res.1.library_kind == remote.kind,
        res.1.zotero_library_id@ == remote.zotero_library_id@,
        res.1.display_name@ == remote.display_name@,
        res.1.upserted == res.0.upserts@.len(),
        res.1.deleted == res.0.deleted_keys@.len(),
        res.1.mirror_jobs == res.0.mirror_jobs@.len(),
        res.1.skipped_unchanged == skipped_count(items@, raw_jsons@, stored@, *config),
        res.1.from_version == since,
        res.1.to_version == new_version,
        res.1.full == full,
{
    let mut deleted = deleted_keys;
    let (mut upserts, skipped) = select_upserts(
        items,
        raw_jsons,
        stored,
        remote,
        lib_id,
        config,
        &mut deleted,
    );
    let ghost pre = upserts@;
    let jobs = plan_mirror_jobs(targets, &mut upserts, &deleted, existing_names);
    let upserted = upserts.len();
    let deleted_n = deleted.len();
    let job_n = jobs.len();
    let report = LibrarySyncReport {
        library_kind: remote.kind,
        zotero_library_id: remote.zotero_library_id.clone(),
        display_name: remote.display_name.clone(),
        upserted,
        deleted: deleted_n,
        mirror_jobs: job_n,
        skipped_unchanged: skipped,
        from_version: since,
        to_version: new_version,
        full,
    };
    let batch = SyncBatch { upserts, deleted_keys: deleted, mirror_jobs: jobs, new_version };
    assert(selected(pre, items@, raw_jsons@, stored@, *remote, lib_id, *config));
    (batch, report)
}

// ---------------------------------------------------------------------
// Fetch decisions
// ---------------------------------------------------------------------

/// Maximum number of item keys per batch request.
pub const BATCH_SIZE: usize = 50;

/// Retries when the library version changes mid-sync.
pub const UNSTABLE_MAX_RETRIES: u32 = 3;

/// Bumped whenever normalization or the stored JSON changes in a way that
/// makes previously indexed rows incomplete; a stored value that differs
/// forces one full sync.
pub const NORMALIZER_VERSION: &'static str = "2";

/// Whether a round must fetch everything: asked for, or rows written by
/// another normalizer.
pub fn needs_full_sync(stored_version: &Option<String>, full: bool) -> (res: bool)
    ensures
        res == (full || !(stored_version matches Some(v) && v@ == NORMALIZER_VERSION@)),
{
    let same = match stored_version {
        Some(v) => crate::text::str_eq(v.as_str(), NORMALIZER_VERSION),
        None => false,
    };
    full || !same
}

/// Whether the configuration syncs libraries of this kind.
pub fn library_included(config: &Config, kind: LibraryKind) -> (res: bool)
    ensures
        res == match kind {
            LibraryKind::User => config.zotero.include_user_library,
            LibraryKind::Group => config.zotero.group_mode@ != "none"@,
        },
{
    match kind {
        LibraryKind::User => config.zotero.include_user_library,
        LibraryKind::Group => !crate::text::str_eq(config.zotero.group_mode.as_str(), "none"),
    }
}

/// The server id to use: the probed one, or `legacy:` and the stored
/// legacy id (a fresh one when none is stored) for servers that send none.
pub open spec fn server_id_spec(probed: Seq<char>, legacy: Option<Seq<char>>, fresh: Seq<char>) -> Seq<
    char,
> {
    if probed.len() == 0 {
        "legacy:"@ + match legacy {
            Some(l) => l,
            None => fresh,
        }
    } else {
        probed
    }
}

/// The resolved server id, and the legacy id to store when the id is a
/// legacy one and none was stored.
pub fn resolve_server_id(probed: &str, legacy: &Option<String>, fresh: &str) -> (res: (
    String,
    Option<String>,
))
    ensures
        res.0@ == server_id_spec(probed@, opt_view(*legacy), fresh@),
        match res.1 {
            Some(l) => legacy is None && starts_with(res.0@, "legacy:"@) && l@ == res.0@.skip(
                "legacy:"@.len() as int,
            ),
            None => legacy is Some || !starts_with(res.0@, "legacy:"@),
        },
{
    proof {
        reveal_strlit("legacy:");
    }
    let id = if probed.is_empty() {
        match legacy {
            Some(l) => crate::text::cat2("legacy:", l.as_str()),
            None => crate::text::cat2("legacy:", fresh),
        }
    } else {
        string_of(chars_of(probed).as_slice())
    };
    let idc = chars_of(id.as_str());
    let prefix = chars_of("legacy:");
    if legacy.is_none() && crate::text::starts_with_chars(&idc, &prefix) {
        let rest = crate::text::slice_chars(&idc, 7, idc.len());
        assert(rest@ =~= id@.skip(7));
        (id, Some(string_of(rest.as_slice())))
    } else {
        (id, None)
    }
}

/// The id of a fresh legacy fallback stays the id of later rounds: the
/// stored part read back gives the same server id, whatever fresh id those
/// rounds would draw.
pub proof fn law_legacy_server_id_is_stable(fresh: Seq<char>, later_fresh: Seq<char>)
    ensures
        server_id_spec(
            Seq::empty(),
            Some(server_id_spec(Seq::empty(), None, fresh).skip("legacy:"@.len() as int)),
            later_fresh,
        ) == server_id_spec(Seq::empty(), None, fresh),
{
    reveal_strlit("legacy:");
    let id = server_id_spec(Seq::empty(), None, fresh);
    assert(id.skip(7) =~= fresh);
}

/// Whether a round changes the active instance from `previous` to
/// `current`: it does unless `current` is already the active one.
pub open spec fn instance_changes(previous: Option<Seq<char>>, current: Seq<char>) -> bool {
    previous != Some(current)
}

/// The instance-change decision of a round: whether `current` becomes the
/// active instance, and the old instance whose mirror files are then
/// removed (the previous active one, when there was one).
pub fn instance_switch(previous: &Option<String>, current: &str) -> (res: (bool, Option<String>))
    ensures
        res.0 == instance_changes(opt_view(*previous), current@),
        opt_view(res.1) == (if res.0 {
            opt_view(*previous)
        } else {
            None
        }),
{
    match previous {
        Some(p) => {
            if crate::text::str_eq(p.as_str(), current) {
                (false, None)
            } else {
                (true, Some(p.clone()))
            }
        },
        None => (true, None),
    }
}

/// A round that switched to an instance leaves it settled: the next round
/// against the same instance switches nothing and removes nothing, and a
/// removal never targets the instance being switched to.
pub proof fn law_instance_switch_settles(previous: Option<Seq<char>>, current: Seq<char>)
    ensures
        !instance_changes(Some(current), current),
        instance_changes(previous, current) && previous is Some ==> previous->0 != current,
{
}

/// The first eight characters of a server id, for messages.
pub fn short_id(server_id: &str) -> (res: String)
    ensures
        res@ == server_id@.take(if server_id@.len() < 8 {
            server_id@.len() as int
        } else {
            8
        }),
{
    let c = chars_of(server_id);
    let n = if c.len() < 8 {
        c.len()
    } else {
        8
    };
    let r = crate::text::slice_chars(&c, 0, n);
    assert(r@ =~= server_id@.take(n as int));
    string_of(r.as_slice())
}

/// No object versions on this server: a zero library version and every
/// item version zero.
pub open spec fn versions_unavailable_spec(resp: VersionResponse) -> bool {
    resp.last_modified_version == 0 && forall|i: int|
        0 <= i < resp.versions@.len() ==> (#[trigger] resp.versions@[i]).1 == 0
}

pub fn versions_unavailable(resp: &VersionResponse) -> (res: bool)
    ensures
        res == versions_unavailable_spec(*resp),
{
    if resp.last_modified_version != 0 {
        return false;
    }
    let mut i: usize = 0;
    while i < resp.versions.len()
        invariant
            i <= resp.versions.len(),
            forall|j: int| 0 <= j < i ==> (#[trigger] resp.versions@[j]).1 == 0,
        decreases resp.versions.len() - i,
    {
        if resp.versions[i].1 != 0 {
            return false;
        }
        i += 1;
    }
    true
}

/// `keys` cut into consecutive batches of `size` (the last may be shorter).
pub open spec fn batches(keys: Seq<Seq<char>>, size: int) -> Seq<Seq<Seq<char>>>
    decreases keys.len(),
{
    if keys.len() == 0 || size <= 0 {
        Seq::empty()
    } else if keys.len() <= size {
        seq![keys]
    } else {
        seq![keys.take(size)] + batches(keys.skip(size), size)
    }
}

/// The item keys of a library, in request batches.
pub fn key_batches(keys: &Vec<String>, size: usize) -> (res: Vec<Vec<String>>)
    requires
        size > 0,
    ensures
        res@.map_values(|b: Vec<String>| strings_view(b@)) == batches(strings_view(keys@), size as int),
    decreases keys.len(),
{
    let mut out: Vec<Vec<String>> = Vec::new();
    if keys.len() == 0 {
        assert(out@.map_values(|b: Vec<String>| strings_view(b@)) =~= Seq::<Seq<Seq<char>>>::empty());
        return out;
    }
    let n = if keys.len() <= size {
        keys.len()
    } else {
        size
    };
    let mut first: Vec<String> = Vec::new();
    let mut i: usize = 0;
    while i < n
        invariant
            i <= n <= keys.len(),
            strings_view(first@) == strings_view(keys@).take(i as int),
        decreases n - i,
    {
        let ghost before = first@;
        first.push(keys[i].clone());
        assert(strings_view(first@) =~= strings_view(before).push(keys@[i as int]@));
        assert(strings_view(keys@).take(i + 1) =~= strings_view(keys@).take(i as int).push(
            keys@[i as int]@,
        ));
        i += 1;
    }
    let mut rest_keys: Vec<String> = Vec::new();
    let mut j: usize = n;
    while j < keys.len()
        invariant
            n <= j <= keys.len(),
            strings_view(rest_keys@) == strings_view(keys@).subrange(n as int, j as int),
        decreases keys.len() - j,
    {
        let ghost before = rest_keys@;
        rest_keys.push(keys[j].clone());
        assert(strings_view(rest_keys@) =~= strings_view(before).push(keys@[j as int]@));
        assert(strings_view(keys@).subrange(n as int, j + 1) =~= strings_view(keys@).subrange(
            n as int,
            j as int,
        ).push(keys@[j as int]@));
        j += 1;
    }
    let ghost kv = strings_view(keys@);
    out.push(first);
    if keys.len() <= size {
        proof {
            assert(kv.take(n as int) =~= kv);
            assert(out@.map_values(|b: Vec<String>| strings_view(b@)) =~= seq![kv]);
        }
        return out;
    }
    let mut tail = key_batches(&rest_keys, size);
    let ghost tv = tail@.map_values(|b: Vec<String>| strings_view(b@));
    let ghost head = out@;
    out.append(&mut tail);
    proof {
        assert(strings_view(rest_keys@) =~= kv.skip(size as int));
        assert(out@.map_values(|b: Vec<String>| strings_view(b@)) =~= seq![kv.take(size as int)]
            + tv);
    }
    out
}

/// Whether every non-zero observed version is the same.
pub open spec fn versions_agree(observed: Seq<u64>) -> bool {
    forall|i: int, j: int|
        0 <= i < observed.len() && 0 <= j < observed.len() && observed[i] > 0 && observed[j] > 0
            ==> observed[i] == observed[j]
}

/// The first non-zero observed version, or zero.
pub open spec fn first_nonzero(observed: Seq<u64>) -> u64
    decreases observed.len(),
{
    if observed.len() == 0 {
        0
    } else if observed[0] > 0 {
        observed[0]
    } else {
        first_nonzero(observed.drop_first())
    }
}

/// The largest item version, or zero.
pub open spec fn max_version(versions: Seq<(String, u64)>) -> u64
    decreases versions.len(),
{
    if versions.len() == 0 {
        0
    } else {
        let m = max_version(versions.drop_last());
        if versions.last().1 > m {
            versions.last().1
        } else {
            m
        }
    }
}

pub open spec fn max3(a: u64, b: u64, c: u64) -> u64 {
    let ab = if a > b {
        a
    } else {
        b
    };
    if ab > c {
        ab
    } else {
        c
    }
}

/// The version a stable round commits: `None` when the responses of the
/// round disagree on the library version (zeros, from missing headers,
/// ignored); else the largest of that version, the largest item version and
/// the previous version.
pub open spec fn settled(observed: Seq<u64>, versions: Seq<(String, u64)>, since: u64) -> Option<u64> {
    if versions_agree(observed) {
        Some(max3(first_nonzero(observed), max_version(versions), since))
    } else {
        None
    }
}

/// The version a stable round commits (see `settled`).
pub fn settle_version(observed: &Vec<u64>, versions: &Vec<(String, u64)>, since: u64) -> (res:
    Option<u64>)
    ensures
        res == settled(observed@, versions@, since),
{
    let mut common: u64 = 0;
    let mut i: usize = 0;
    assert(observed@.skip(0) =~= observed@);
    while i < observed.len()
        invariant
            i <= observed.len(),
            common == 0 ==> forall|j: int| 0 <= j < i ==> observed@[j] == 0,
            common == 0 ==> first_nonzero(observed@) == first_nonzero(observed@.skip(i as int)),
            common != 0 ==> common == first_nonzero(observed@),
            common != 0 ==> exists|j: int| 0 <= j < i && observed@[j] == common,
            forall|j: int| 0 <= j < i && observed@[j] > 0 ==> observed@[j] == common,
        decreases observed.len() - i,
    {
        let v = observed[i];
        proof {
            assert(observed@.skip(i as int)[0] == v);
            assert(observed@.skip(i as int).drop_first() =~= observed@.skip(i + 1));
        }
        if v > 0 {
            if common == 0 {
                common = v;
            } else if v != common {
                proof {
                    let a = choose|j: int| 0 <= j < i && observed@[j] == common;
                    assert(observed@[a] > 0 && observed@[i as int] > 0 && observed@[a]
                        != observed@[i as int]);
                }
                return None;
            }
        }
        i += 1;
    }
    let mut m: u64 = 0;
    let mut k: usize = 0;
    while k < versions.len()
        invariant
            k <= versions.len(),
            m == max_version(versions@.take(k as int)),
        decreases versions.len() - k,
    {
        assert(versions@.take(k + 1).drop_last() =~= versions@.take(k as int));
        if versions[k].1 > m {
            m = versions[k].1;
        }
        k += 1;
    }
    assert(versions@.take(versions.len() as int) =~= versions@);
    proof {
        if common == 0 {
            assert(observed@.skip(observed.len() as int) =~= Seq::<u64>::empty());
        }
    }
    let ab = if common > m {
        common
    } else {
        m
    };
    Some(
        if ab > since {
            ab
        } else {
            since
        },
    )
}

/// The local keys that the remote listing lacks, each once, in local order.
pub open spec fn missing_keys_spec(local: Seq<Seq<char>>, remote: Seq<Seq<char>>) -> Seq<Seq<char>>
    decreases local.len(),
{
    if local.len() == 0 {
        Seq::empty()
    } else {
        let rest = missing_keys_spec(local.drop_last(), remote);
        let k = local.last();
        if !remote.contains(k) && !rest.contains(k) {
            rest.push(k)
        } else {
            rest
        }
    }
}

/// Keys deleted on a server without object versions: the local keys
/// missing from the remote listing.
pub fn missing_keys(local: &Vec<String>, remote: &Vec<String>) -> (res: Vec<String>)
    ensures
        strings_view(res@) == missing_keys_spec(strings_view(local@), strings_view(remote@)),
{
    let ghost lv = strings_view(local@);
    let ghost rv = strings_view(remote@);
    let mut out: Vec<String> = Vec::new();
    let mut i: usize = 0;
    assert(lv.take(0) =~= Seq::<Seq<char>>::empty());
    assert(strings_view(out@) =~= Seq::<Seq<char>>::empty());
    while i < local.len()
        invariant
            i <= local.len(),
            lv == strings_view(local@),
            rv == strings_view(remote@),
            strings_view(out@) == missing_keys_spec(lv.take(i as int), rv),
        decreases local.len() - i,
    {
        let k = &local[i];
        proof {
            assert(lv.take(i + 1).drop_last() =~= lv.take(i as int));
            assert(lv.take(i + 1).last() == k@);
        }
        if !contains_key(remote, k) && !contains_key(&out, k) {
            let ghost before = out@;
            out.push(k.clone());
            assert(strings_view(out@) =~= strings_view(before).push(k@));
        }
        i += 1;
    }
    assert(lv.take(local.len() as int) =~= lv);
    out
}

/// Whether another mid-sync change, the `attempt`-th, ends the round.
pub fn gives_up_unstable(attempt: u32) -> (res: bool)
    ensures
        res == (attempt > UNSTABLE_MAX_RETRIES),
{
    attempt > UNSTABLE_MAX_RETRIES
}

/// The error of a library that kept changing during a round.
pub fn unstable_error(api_prefix: &str) -> (res: Error)
    ensures
        res matches Error::Api { status, message } && status == 0 && message@ == "library "@
            + api_prefix@ + " kept changing during sync; giving up for this round"@,
{
    Error::Api {
        status: 0,
        message: crate::text::cat3(
            "library ",
            api_prefix,
            " kept changing during sync; giving up for this round",
        ),
    }
}

// ---------------------------------------------------------------------
// Instance change
// ---------------------------------------------------------------------

/// Deletes of the named mirror files on one platform.
pub open spec fn cleanup_platform_jobs(p: Platform, dir: Seq<char>, names: Seq<Seq<char>>) -> Seq<
    JobPlan,
>
    decreases names.len(),
{
    if names.len() == 0 {
        Seq::empty()
    } else {
        cleanup_platform_jobs(p, dir, names.drop_last()).push(
            JobPlan {
                operation: MirrorOperation::Delete,
                platform: p,
                dir,
                old_file: Some(file_name(names.last(), p)),
                new_file: None,
                content: None,
            },
        )
    }
}

/// Deletes of the named mirror files, platform by platform.
pub open spec fn cleanup_jobs(targets: Seq<(Platform, Seq<char>)>, names: Seq<Seq<char>>) -> Seq<
    JobPlan,
>
    decreases targets.len(),
{
    if targets.len() == 0 {
        Seq::empty()
    } else {
        cleanup_jobs(targets.drop_last(), names) + cleanup_platform_jobs(
            targets.last().0,
            targets.last().1,
            names,
        )
    }
}

/// When the Zotero instance changes, the jobs that remove the mirror files
/// of the old instance (`names`) on every enabled platform.
pub fn instance_cleanup_jobs(targets: &Vec<MirrorTarget>, names: &Vec<String>) -> (jobs: Vec<
    NewMirrorJob,
>)
    ensures
        jobs_match(
            jobs@,
            cleanup_jobs(
                targets@.map_values(|t: MirrorTarget| target_view(t)),
                strings_view(names@),
            ),
        ),
{
    let ghost tv = targets@.map_values(|t: MirrorTarget| target_view(t));
    let ghost nv = strings_view(names@);
    let mut jobs: Vec<NewMirrorJob> = Vec::new();
    let mut ti: usize = 0;
    assert(tv.take(0) =~= Seq::<(Platform, Seq<char>)>::empty());
    while ti < targets.len()
        invariant
            ti <= targets.len(),
            tv == targets@.map_values(|t: MirrorTarget| target_view(t)),
            nv == strings_view(names@),
            jobs_match(jobs@, cleanup_jobs(tv.take(ti as int), nv)),
        decreases targets.len() - ti,
    {
        let t = &targets[ti];
        let backend = backend_for(t.platform);
        assert(backend == backend_of(t.platform));
        let ghost base = cleanup_jobs(tv.take(ti as int), nv);
        let mut i: usize = 0;
        assert(nv.take(0) =~= Seq::<Seq<char>>::empty());
        assert(base + cleanup_platform_jobs(t.platform, t.dir@, nv.take(0)) =~= base);
        while i < names.len()
            invariant
                i <= names.len(),
                nv == strings_view(names@),
                backend == backend_of(t.platform),
                jobs_match(jobs@, base + cleanup_platform_jobs(t.platform, t.dir@, nv.take(i as int))),
            decreases names.len() - i,
        {
            let nc = chars_of(names[i].as_str());
            let file = file_name_exec(&nc, &backend);
            let path = path_join(t.dir.as_str(), file.as_str());
            let j = NewMirrorJob {
                operation: MirrorOperation::Delete,
                platform: t.platform,
                old_path: Some(path),
                new_path: None,
                content: None,
            };
            let ghost p = JobPlan {
                operation: MirrorOperation::Delete,
                platform: t.platform,
                dir: t.dir@,
                old_file: Some(file_name(nc@, t.platform)),
                new_file: None,
                content: None,
            };
            proof {
                let before = base + cleanup_platform_jobs(t.platform, t.dir@, nv.take(i as int));
                lemma_jobs_push(jobs@, before, j, p);
                assert(nv.take(i + 1).drop_last() =~= nv.take(i as int));
                assert(nv.take(i + 1).last() == nc@);
                assert(before.push(p) =~= base + cleanup_platform_jobs(
                    t.platform,
                    t.dir@,
                    nv.take(i + 1),
                ));
            }
            jobs.push(j);
            i += 1;
        }
        proof {
            assert(nv.take(names.len() as int) =~= nv);
            assert(tv.take(ti + 1).drop_last() =~= tv.take(ti as int));
            assert(tv.take(ti + 1).last() == target_view(*t));
        }
        ti += 1;
    }
    assert(tv.take(targets.len() as int) =~= tv);
    jobs
}

// ---------------------------------------------------------------------
// Laws
// ---------------------------------------------------------------------

/// An item keeps the name its template renders, or gets that name with
/// ` -- <its key>` at the end.
pub proof fn law_planned_name_is_rendered_or_keyed(
    bases: Seq<(Seq<char>, Seq<char>)>,
    taken: Map<Seq<char>, Seq<char>>,
    i: int,
)
    requires
        0 <= i < bases.len(),
    ensures
        dedup_names(bases, taken).0[i] == bases[i].0 || crate::text::ends_with(
            dedup_names(bases, taken).0[i],
            " -- "@ + bases[i].1,
        ),
    decreases bases.len(),
{
    lemma_dedup_len(bases.drop_last(), taken);
    if i < bases.len() - 1 {
        law_planned_name_is_rendered_or_keyed(bases.drop_last(), taken, i);
        assert(dedup_names(bases, taken).0[i] == dedup_names(bases.drop_last(), taken).0[i]);
        assert(bases.drop_last()[i] == bases[i]);
    } else {
        crate::filename::law_key_suffix_ends_with_key(bases.last().0, bases.last().1);
    }
}

/// A refresh right after a refresh was applied does nothing: when every
/// item holds its new name and every file is there, there are no jobs and
/// no renamed items.
pub proof fn law_refresh_settles(
    targets: Seq<(Platform, Seq<char>)>,
    present: Seq<Seq<bool>>,
    items: Seq<IndexedItem>,
    names: Seq<Seq<char>>,
)
    requires
        names.len() == items.len(),
        present.len() == targets.len(),
        forall|t: int| 0 <= t < present.len() ==> (#[trigger] present[t]).len() == items.len(),
        forall|t: int, i: int|
            0 <= t < present.len() && 0 <= i < items.len() ==> #[trigger] present[t][i],
        forall|i: int| 0 <= i < items.len() ==> !name_changed(#[trigger] items[i], names[i]),
    ensures
        refresh_jobs(targets, present, items, names).len() == 0,
        changed_positions(items, names).len() == 0,
{
    lemma_refresh_settles(targets, present, items, names);
}

/// A second refresh with the same template, once the first one's names are
/// stored and its files written, renames nothing, rewrites nothing and plans
/// no job: items that differ only in their stored names render to the same
/// names, and each item already holds its name.
pub proof fn law_second_refresh_is_noop(
    template: Seq<char>,
    targets: Seq<(Platform, Seq<char>)>,
    items: Seq<IndexedItem>,
    applied: Seq<IndexedItem>,
    present: Seq<Seq<bool>>,
)
    requires
        applied.len() == items.len(),
        forall|i: int|
            0 <= i < items.len() ==> renamed(
                #[trigger] applied[i],
                items[i],
                refresh_names_spec(template, items)[i],
            ),
        present.len() == targets.len(),
        forall|t: int| 0 <= t < present.len() ==> (#[trigger] present[t]).len() == items.len(),
        forall|t: int, i: int|
            0 <= t < present.len() && 0 <= i < items.len() ==> #[trigger] present[t][i],
    ensures
        refresh_names_spec(template, applied) == refresh_names_spec(template, items),
        refresh_jobs(targets, present, applied, refresh_names_spec(template, applied)).len() == 0,
        changed_positions(applied, refresh_names_spec(template, applied)).len() == 0,
{
    let names = refresh_names_spec(template, items);
    assert forall|i: int| 0 <= i < items.len() implies #[trigger] rendered(template, applied)[i]
        == rendered(template, items)[i] by {
        crate::filename::lemma_render_auto_ignores_stored_name(
            template,
            items[i],
            applied[i].mirror_filename,
            template_data_spec(opt_view(items[i].raw_json)),
        );
    }
    assert(rendered(template, applied) =~= rendered(template, items));
    lemma_dedup_len(rendered(template, items), Map::empty());
    assert forall|i: int| 0 <= i < applied.len() implies !name_changed(
        #[trigger] applied[i],
        names[i],
    ) by {
        assert(renamed(applied[i], items[i], names[i]));
    }
    lemma_refresh_settles(targets, present, applied, names);
}

proof fn lemma_refresh_settles(
    targets: Seq<(Platform, Seq<char>)>,
    present: Seq<Seq<bool>>,
    items: Seq<IndexedItem>,
    names: Seq<Seq<char>>,
)
    requires
        names.len() >= items.len(),
        present.len() == targets.len(),
        forall|t: int| 0 <= t < present.len() ==> (#[trigger] present[t]).len() >= items.len(),
        forall|t: int, i: int|
            0 <= t < present.len() && 0 <= i < items.len() ==> #[trigger] present[t][i],
        forall|i: int| 0 <= i < items.len() ==> !name_changed(#[trigger] items[i], names[i]),
    ensures
        refresh_jobs(targets, present, items, names).len() == 0,
        changed_positions(items, names).len() == 0,
    decreases items.len(),
{
    if items.len() > 0 {
        let i = items.len() - 1;
        assert forall|k: int| 0 <= k < items.drop_last().len() implies !name_changed(
            #[trigger] items.drop_last()[k],
            names[k],
        ) by {
            assert(items.drop_last()[k] == items[k]);
        }
        lemma_refresh_settles(targets, present, items.drop_last(), names);
        let col = present_column(present, i);
        assert forall|t: int| 0 <= t < col.len() implies #[trigger] col[t] by {
            assert(present[t][i]);
        }
        lemma_refresh_item_none(targets, col, items[i], names[i]);
    }
}

proof fn lemma_refresh_item_none(
    targets: Seq<(Platform, Seq<char>)>,
    present: Seq<bool>,
    item: IndexedItem,
    base: Seq<char>,
)
    requires
        present.len() >= targets.len(),
        forall|t: int| 0 <= t < present.len() ==> #[trigger] present[t],
        !name_changed(item, base),
    ensures
        refresh_item_jobs(targets, present, item, base).len() == 0,
    decreases targets.len(),
{
    if targets.len() > 0 {
        lemma_refresh_item_none(targets.drop_last(), present, item, base);
        assert(present[targets.len() - 1]);
    }
}

/// The batches laid end to end.
pub open spec fn flatten(bs: Seq<Seq<Seq<char>>>) -> Seq<Seq<char>>
    decreases bs.len(),
{
    if bs.len() == 0 {
        Seq::empty()
    } else {
        bs[0] + flatten(bs.drop_first())
    }
}

/// Concatenating the batches gives the keys back, and every batch holds
/// between one and `size` keys.
pub proof fn law_batches_cover_keys(keys: Seq<Seq<char>>, size: int)
    requires
        size > 0,
    ensures
        flatten(batches(keys, size)) == keys,
        forall|i: int|
            0 <= i < batches(keys, size).len() ==> 0 < (#[trigger] batches(keys, size)[i]).len()
                <= size,
    decreases keys.len(),
{
    if keys.len() == 0 {
        assert(keys =~= Seq::<Seq<char>>::empty());
    } else if keys.len() <= size {
        let b = batches(keys, size);
        assert(b == seq![keys]);
        assert(b.drop_first() =~= Seq::<Seq<Seq<char>>>::empty());
        assert(flatten(b.drop_first()) == Seq::<Seq<char>>::empty());
        assert(flatten(b) == b[0] + flatten(b.drop_first()));
        assert(keys + Seq::<Seq<char>>::empty() =~= keys);
        assert(flatten(b) == keys);
    } else {
        let rest = batches(keys.skip(size), size);
        law_batches_cover_keys(keys.skip(size), size);
        let all = seq![keys.take(size)] + rest;
        assert(batches(keys, size) == all);
        assert(all.drop_first() =~= rest);
        assert(all[0] == keys.take(size));
        assert(flatten(all) == all[0] + flatten(all.drop_first()));
        assert(keys.take(size) + keys.skip(size) =~= keys);
        assert(flatten(all) == keys);
        assert forall|i: int| 0 <= i < all.len() implies 0 < (#[trigger] all[i]).len() <= size by {
            if i > 0 {
                assert(all[i] == rest[i - 1]);
            }
        }
    }
}

proof fn lemma_no_positions(
    raws: Seq<ZoteroItem>,
    raw_jsons: Seq<Option<String>>,
    stored: Seq<Option<StoredItem>>,
    config: Config,
)
    requires
        forall|i: int|
            0 <= i < raws.len() ==> !dropped(#[trigger] raws[i]) && unchanged_item(
                stored[i],
                raws[i],
                kept_json(config, raw_jsons, i),
                config,
            ),
    ensures
        upsert_positions(raws, raw_jsons, stored, config).len() == 0,
    decreases raws.len(),
{
    if raws.len() > 0 {
        let i = raws.len() - 1;
        assert(!dropped(raws[i]));
        assert forall|j: int| 0 <= j < raws.drop_last().len() implies !dropped(
            #[trigger] raws.drop_last()[j],
        ) && unchanged_item(stored[j], raws.drop_last()[j], kept_json(config, raw_jsons, j), config) by {
            assert(raws.drop_last()[j] == raws[j]);
            assert(!dropped(raws[j]));
        }
        lemma_no_positions(raws.drop_last(), raw_jsons, stored, config);
    }
}

proof fn lemma_none_dropped(deleted: Seq<Seq<char>>, raws: Seq<ZoteroItem>)
    requires
        forall|i: int| 0 <= i < raws.len() ==> !dropped(#[trigger] raws[i]),
    ensures
        extended_deleted(deleted, raws) == deleted,
    decreases raws.len(),
{
    if raws.len() > 0 {
        assert(!dropped(raws[raws.len() - 1]));
        assert forall|j: int| 0 <= j < raws.drop_last().len() implies !dropped(
            #[trigger] raws.drop_last()[j],
        ) by {
            assert(raws.drop_last()[j] == raws[j]);
            assert(!dropped(raws[j]));
        }
        lemma_none_dropped(deleted, raws.drop_last());
    }
}

proof fn lemma_no_planned_jobs(
    targets: Seq<(Platform, Seq<char>)>,
    entries: Seq<(Seq<char>, Seq<char>, Seq<char>)>,
    deleted: Seq<Seq<char>>,
    existing: Seq<(Seq<char>, Seq<char>)>,
)
    requires
        entries.len() == 0,
        deleted.len() == 0,
    ensures
        planned_jobs(targets, entries, deleted, existing).len() == 0,
    decreases targets.len(),
{
    if targets.len() > 0 {
        lemma_no_planned_jobs(targets.drop_last(), entries, deleted, existing);
        let (p, dir) = targets.last();
        assert(upsert_jobs(p, dir, entries, existing).len() == 0);
        assert(delete_jobs(p, dir, deleted, existing).len() == 0);
    }
}

/// A round that finds nothing new changes nothing: when no key was
/// deleted and every fetched item is kept and is what the index already
/// holds (same hash, version and stored JSON), the batch has no upserts, no
/// deleted keys and no mirror jobs, and only records the new version.
pub proof fn law_unchanged_round_is_noop(
    batch: SyncBatch,
    lib_id: i64,
    remote: RemoteLibrary,
    items: Seq<ZoteroItem>,
    raw_jsons: Seq<Option<String>>,
    stored: Seq<Option<StoredItem>>,
    new_version: u64,
    config: Config,
    targets: Seq<MirrorTarget>,
    existing_names: Seq<(String, String)>,
)
    requires
        forall|i: int|
            0 <= i < items.len() ==> !dropped(#[trigger] items[i]) && unchanged_item(
                stored[i],
                items[i],
                kept_json(config, raw_jsons, i),
                config,
            ),
        commit_result(
            batch,
            lib_id,
            remote,
            items,
            raw_jsons,
            stored,
            Seq::empty(),
            new_version,
            config,
            targets,
            existing_names,
        ),
    ensures
        batch.upserts@.len() == 0,
        batch.deleted_keys@.len() == 0,
        batch.mirror_jobs@.len() == 0,
        batch.new_version == new_version,
{
    lemma_no_positions(items, raw_jsons, stored, config);
    assert forall|i: int| 0 <= i < items.len() implies !dropped(#[trigger] items[i]) by {}
    lemma_none_dropped(strings_view(Seq::empty()), items);
    assert(strings_view(Seq::<String>::empty()) =~= Seq::<Seq<char>>::empty());
    assert(strings_view(batch.deleted_keys@).len() == 0);
    let pre = choose|pre: Seq<IndexedItem>|
        selected(pre, items, raw_jsons, stored, remote, lib_id, config) && mirror_plan(
            targets,
            pre,
            batch.upserts@,
            batch.mirror_jobs@,
            batch.deleted_keys@,
            existing_names,
        );
    assert(pre.len() == 0);
    if targets.len() > 0 {
        let names = planned_names(targets[0].template@, pre, pairs_view(existing_names));
        lemma_no_planned_jobs(
            targets.map_values(|t: MirrorTarget| target_view(t)),
            job_entries(names, pre),
            strings_view(batch.deleted_keys@),
            pairs_view(existing_names),
        );
    }
}

proof fn lemma_extended_deleted_holds(deleted: Seq<Seq<char>>, raws: Seq<ZoteroItem>)
    ensures
        forall|j: int|
            0 <= j < deleted.len() ==> extended_deleted(deleted, raws).contains(#[trigger] deleted[j]),
        forall|i: int|
            0 <= i < raws.len() && dropped(#[trigger] raws[i]) ==> extended_deleted(
                deleted,
                raws,
            ).contains(raws[i].key@),
    decreases raws.len(),
{
    if raws.len() > 0 {
        lemma_extended_deleted_holds(deleted, raws.drop_last());
        let d = extended_deleted(deleted, raws.drop_last());
        let e = extended_deleted(deleted, raws);
        assert forall|x: Seq<char>| d.contains(x) implies e.contains(x) by {
            let j = choose|j: int| 0 <= j < d.len() && d[j] == x;
            if e != d {
                assert(e[j] == x);
            }
        }
        assert forall|j: int| 0 <= j < deleted.len() implies e.contains(#[trigger] deleted[j]) by {
            assert(d.contains(deleted[j]));
        }
        assert forall|i: int| 0 <= i < raws.len() && dropped(#[trigger] raws[i]) implies e.contains(
            raws[i].key@,
        ) by {
            if i < raws.len() - 1 {
                assert(raws.drop_last()[i] == raws[i]);
                assert(d.contains(raws[i].key@));
            } else {
                let k = raws.last().key@;
                if !d.contains(k) {
                    assert(e[d.len() as int] == k);
                }
            }
        }
    }
}

/// Nothing that should leave the index stays: every key deleted on the
/// server, and the key of every fetched item that is trashed or of an
/// excluded type, is among the keys the batch deletes.
pub proof fn law_removed_keys_are_deleted(
    batch: SyncBatch,
    lib_id: i64,
    remote: RemoteLibrary,
    items: Seq<ZoteroItem>,
    raw_jsons: Seq<Option<String>>,
    stored: Seq<Option<StoredItem>>,
    deleted_keys: Seq<String>,
    new_version: u64,
    config: Config,
    targets: Seq<MirrorTarget>,
    existing_names: Seq<(String, String)>,
)
    requires
        commit_result(
            batch,
            lib_id,
            remote,
            items,
            raw_jsons,
            stored,
            deleted_keys,
            new_version,
            config,
            targets,
            existing_names,
        ),
    ensures
        forall|j: int|
            0 <= j < deleted_keys.len() ==> strings_view(batch.deleted_keys@).contains(
                (#[trigger] deleted_keys[j])@,
            ),
        forall|i: int|
            0 <= i < items.len() && dropped(#[trigger] items[i]) ==> strings_view(
                batch.deleted_keys@,
            ).contains(items[i].key@),
{
    let d = strings_view(deleted_keys);
    lemma_extended_deleted_holds(d, items);
    assert forall|j: int| 0 <= j < deleted_keys.len() implies strings_view(
        batch.deleted_keys@,
    ).contains((#[trigger] deleted_keys[j])@) by {
        assert(d[j] == deleted_keys[j]@);
    }
}

proof fn lemma_max_version_bounds(versions: Seq<(String, u64)>)
    ensures
        forall|i: int| 0 <= i < versions.len() ==> (#[trigger] versions[i]).1 <= max_version(versions),
    decreases versions.len(),
{
    if versions.len() > 0 {
        lemma_max_version_bounds(versions.drop_last());
        assert forall|i: int| 0 <= i < versions.len() implies (#[trigger] versions[i]).1 <= max_version(
            versions,
        ) by {
            if i < versions.len() - 1 {
                assert(versions.drop_last()[i] == versions[i]);
            }
        }
    }
}

/// A library's version never goes back and covers what was fetched: the
/// version a settled round commits is at least the previous one and at
/// least every item version the round listed.
pub proof fn law_settled_version_covers(observed: Seq<u64>, versions: Seq<(String, u64)>, since: u64)
    ensures
        settled(observed, versions, since) matches Some(v) ==> v >= since && forall|i: int|
            0 <= i < versions.len() ==> v >= (#[trigger] versions[i]).1,
{
    lemma_max_version_bounds(versions);
}

} // verus!
