//! Add-on manifests and the records the core keeps of installed add-ons.
use crate::order::{keys_lt, lemma_insert_by_key_at, lemma_keys_lt_single, sort_by_key};
use crate::text::{clone_strings, lemma_filter_push, string_lt, trim, trim_str};
use vstd::prelude::*;

verus! {

/// The manifest an add-on ships in its directory.
pub struct AddonManifest {
    pub id: String,
    pub name: String,
    pub version: String,
    pub description: String,
    pub executable: String,
    pub services: Vec<String>,
    pub enabled: bool,
}

/// An installed add-on: its manifest and where it was found.
pub struct AddonRecord {
    pub id: String,
    pub name: String,
    pub version: String,
    pub description: String,
    pub executable: String,
    pub services: Vec<String>,
    pub enabled: bool,
    pub manifest_path: String,
    pub addon_dir: String,
}

pub struct AddonRecordView {
    pub id: Seq<char>,
    pub name: Seq<char>,
    pub version: Seq<char>,
    pub description: Seq<char>,
    pub executable: Seq<char>,
    pub services: Seq<Seq<char>>,
    pub enabled: bool,
    pub manifest_path: Seq<char>,
    pub addon_dir: Seq<char>,
}

impl View for AddonRecord {
    type V = AddonRecordView;

    open spec fn view(&self) -> AddonRecordView {
        AddonRecordView {
            id: self.id@,
            name: self.name@,
            version: self.version@,
            description: self.description@,
            executable: self.executable@,
            services: self.services.deep_view(),
            enabled: self.enabled,
            manifest_path: self.manifest_path@,
            addon_dir: self.addon_dir@,
        }
    }
}

impl Clone for AddonRecord {
    fn clone(&self) -> (r: Self)
        ensures
            r@ == self@,
    {
        AddonRecord {
            id: self.id.clone(),
            name: self.name.clone(),
            version: self.version.clone(),
            description: self.description.clone(),
            executable: self.executable.clone(),
            services: clone_strings(&self.services),
            enabled: self.enabled,
            manifest_path: self.manifest_path.clone(),
            addon_dir: self.addon_dir.clone(),
        }
    }
}

pub open spec fn addons_view(s: Seq<AddonRecord>) -> Seq<AddonRecordView> {
    s.map_values(|a: AddonRecord| a@)
}

/// Why a manifest was refused.
#[derive(Debug, Clone, Copy, PartialEq, Eq, Structural)]
pub enum AddonError {
    EmptyId,
    EmptyName,
    EmptyVersion,
}

/// Example add-ons are not recreated once the user removes them, so there is
/// nothing to do.
pub fn create_example_addon_manifest() -> (r: Result<(), AddonError>)
    ensures
        r is Ok,
{
    Ok(())
}

/// The record of a parsed manifest found at `manifest_path` in `addon_dir`.
/// The id, name and version must not be blank.
pub fn addon_record_from_manifest(manifest: AddonManifest, manifest_path: String, addon_dir: String) -> (r: Result<AddonRecord, AddonError>)
    ensures
        trim(manifest.id@).len() == 0 ==> r matches Err(AddonError::EmptyId),
        trim(manifest.id@).len() > 0 && trim(manifest.name@).len() == 0 ==> r matches Err(AddonError::EmptyName),
        trim(manifest.id@).len() > 0 && trim(manifest.name@).len() > 0 && trim(manifest.version@).len() == 0
            ==> r matches Err(AddonError::EmptyVersion),
        trim(manifest.id@).len() > 0 && trim(manifest.name@).len() > 0 && trim(manifest.version@).len() > 0 ==> (
        r matches Ok(a) && a@ == AddonRecordView {
            id: manifest.id@,
            name: manifest.name@,
            version: manifest.version@,
            description: manifest.description@,
            executable: manifest.executable@,
            services: manifest.services.deep_view(),
            enabled: manifest.enabled,
            manifest_path: manifest_path@,
            addon_dir: addon_dir@,
        }),
{
    if trim_str(manifest.id.as_str()).as_str().is_empty() {
        return Err(AddonError::EmptyId);
    }
    if trim_str(manifest.name.as_str()).as_str().is_empty() {
        return Err(AddonError::EmptyName);
    }
    if trim_str(manifest.version.as_str()).as_str().is_empty() {
        return Err(AddonError::EmptyVersion);
    }
    Ok(
        AddonRecord {
            id: manifest.id,
            name: manifest.name,
            version: manifest.version,
            description: manifest.description,
            executable: manifest.executable,
            services: manifest.services,
            enabled: manifest.enabled,
            manifest_path,
            addon_dir,
        },
    )
}

/// The sort key of a record: its name.
pub open spec fn name_key(a: AddonRecordView) -> Seq<Seq<char>> {
    seq![a.name]
}

pub open spec fn by_name() -> spec_fn(AddonRecordView) -> Seq<Seq<char>> {
    |a: AddonRecordView| name_key(a)
}

/// The records sorted by name; records with the same name keep their order.
pub fn sort_addons_by_name(records: Vec<AddonRecord>) -> (r: Vec<AddonRecord>)
    ensures
        addons_view(r@) == sort_by_key(addons_view(records@), by_name()),
{
    let ghost key = by_name();
    let ghost src = addons_view(records@);
    let mut out: Vec<AddonRecord> = Vec::new();
    let mut i: usize = 0;
    while i < records.len()
        invariant
            src == addons_view(records@),
            key == by_name(),
            i <= records@.len(),
            addons_view(out@) == sort_by_key(src.take(i as int), key),
        decreases records@.len() - i,
    {
        let x = records[i].clone();
        let mut p: usize = out.len();
        while p > 0 && string_lt(&x.name, &out[p - 1].name)
            invariant
                p <= out@.len(),
                key == by_name(),
                forall|j: int| p <= j < out@.len() ==> keys_lt(key(x@), #[trigger] key(out@[j]@)),
            decreases p,
        {
            proof {
                lemma_keys_lt_single(x@.name, out@[p - 1]@.name);
            }
            p = p - 1;
        }
        proof {
            if p > 0 {
                lemma_keys_lt_single(x@.name, out@[p - 1]@.name);
            }
            let o = addons_view(out@);
            assert forall|j: int| p <= j < o.len() implies keys_lt(key(x@), #[trigger] key(o[j])) by {
                assert(o[j] == out@[j]@);
            }
            if p > 0 {
                assert(o[p - 1] == out@[p - 1]@);
            }
            lemma_insert_by_key_at(o, x@, key, p as int);
            assert(src.take(i + 1).drop_last() == src.take(i as int));
            assert(src.take(i + 1).last() == x@);
        }
        let ghost before = addons_view(out@);
        out.insert(p, x);
        proof {
            assert(addons_view(out@) =~= before.insert(p as int, records@[i as int]@));
        }
        i = i + 1;
    }
    proof {
        assert(src.take(records@.len() as int) == src);
    }
    out
}

/// Whether a disabled add-on's executable should be stopped: it is
/// disabled and names an executable.
pub open spec fn should_stop(a: AddonRecordView) -> bool {
    !a.enabled && trim(a.executable).len() > 0
}

/// The disabled add-ons whose executables should be stopped, in order.
pub fn addons_to_stop(records: &Vec<AddonRecord>) -> (r: Vec<AddonRecord>)
    ensures
        addons_view(r@) == addons_view(records@).filter(|a: AddonRecordView| should_stop(a)),
{
    let ghost src = addons_view(records@);
    let mut out: Vec<AddonRecord> = Vec::new();
    let mut i: usize = 0;
    while i < records.len()
        invariant
            src == addons_view(records@),
            i <= records@.len(),
            addons_view(out@) == src.take(i as int).filter(|a: AddonRecordView| should_stop(a)),
        decreases records@.len() - i,
    {
        let a = &records[i];
        proof {
            assert(src.take(i + 1) == src.take(i as int).push(a@));
            lemma_filter_push(src.take(i as int), |a: AddonRecordView| should_stop(a), a@);
        }
        if !a.enabled && !trim_str(a.executable.as_str()).as_str().is_empty() {
            let ghost before = addons_view(out@);
            out.push(a.clone());
            proof {
                assert(addons_view(out@) =~= before.push(a@));
            }
        }
        i = i + 1;
    }
    proof {
        assert(src.take(records@.len() as int) == src);
    }
    out
}

} // verus!
