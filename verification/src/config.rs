//! The project configuration (`scrust.toml`) as plain values, and the
//! merging of the extensions it names with those that packages ask for.
//!
//! Paths are held as the text they were written with; reading the file and
//! resolving paths against the configuration's directory are done by the
//! program around the library.
use vstd::prelude::*;

verus! {

#[derive(Debug)]
pub struct ScrustConfig {
    pub project: ProjectConfig,
    pub stage: TargetConfig,
    pub sprite: Option<Vec<TargetConfig>>,
}

#[derive(Debug)]
pub struct ProjectConfig {
    pub name: String,
    pub output: String,
    pub extensions: Option<Vec<ExtensionConfig>>,
    pub packages: Option<Vec<String>>,
}

/// An extension is named either by its id alone or by a table.
#[derive(Debug)]
pub enum ExtensionConfig {
    Simple(String),
    Detailed(DetailedExtensionConfig),
}

#[derive(Debug)]
pub struct DetailedExtensionConfig {
    pub name: Option<String>,
    pub id: Option<String>,
    pub source: Option<String>,
    pub definition: Option<String>,
}

#[derive(Debug)]
pub struct TargetConfig {
    pub name: Option<String>,
    pub path: String,
}

pub ghost enum ExtensionConfigV {
    Simple(Seq<char>),
    Detailed(Option<Seq<char>>, Option<Seq<char>>, Option<Seq<char>>, Option<Seq<char>>),
}

pub open spec fn opt_view(s: Option<String>) -> Option<Seq<char>> {
    match s {
        Some(x) => Some(x@),
        None => None,
    }
}

impl View for ExtensionConfig {
    type V = ExtensionConfigV;

    open spec fn view(&self) -> ExtensionConfigV {
        match self {
            ExtensionConfig::Simple(s) => ExtensionConfigV::Simple(s@),
            ExtensionConfig::Detailed(d) => ExtensionConfigV::Detailed(
                opt_view(d.name),
                opt_view(d.id),
                opt_view(d.source),
                opt_view(d.definition),
            ),
        }
    }
}

pub open spec fn exts_view(s: Seq<ExtensionConfig>) -> Seq<ExtensionConfigV> {
    s.map_values(|e: ExtensionConfig| e@)
}

/// Whether an entry names the extension `id`: a plain entry by its text, a
/// table by its `id`.
pub open spec fn names_extension(e: ExtensionConfigV, id: Seq<char>) -> bool {
    match e {
        ExtensionConfigV::Simple(s) => s == id,
        ExtensionConfigV::Detailed(_, i, _, _) => i == Some(id),
    }
}

pub open spec fn lists_extension(l: Seq<ExtensionConfigV>, id: Seq<char>) -> bool {
    exists|k: int| 0 <= k < l.len() && names_extension(l[k], id)
}

/// The configured extensions followed by each extension that a package asks
/// for and that is not listed yet, in the order asked.
pub open spec fn merge_exts(l: Seq<ExtensionConfigV>, adds: Seq<Seq<char>>) -> Seq<
    ExtensionConfigV,
>
    decreases adds.len(),
{
    if adds.len() == 0 {
        l
    } else {
        let m = merge_exts(l, adds.drop_last());
        if lists_extension(m, adds.last()) {
            m
        } else {
            m.push(ExtensionConfigV::Simple(adds.last()))
        }
    }
}

fn copy_opt(s: &Option<String>) -> (r: Option<String>)
    ensures
        opt_view(r) == opt_view(*s),
{
    match s {
        Some(x) => Some(x.clone()),
        None => None,
    }
}

impl ExtensionConfig {
    /// A copy with the same view.
    pub fn duplicate(&self) -> (r: ExtensionConfig)
        ensures
            r@ == self@,
    {
        match self {
            ExtensionConfig::Simple(s) => ExtensionConfig::Simple(s.clone()),
            ExtensionConfig::Detailed(d) => ExtensionConfig::Detailed(
                DetailedExtensionConfig {
                    name: copy_opt(&d.name),
                    id: copy_opt(&d.id),
                    source: copy_opt(&d.source),
                    definition: copy_opt(&d.definition),
                },
            ),
        }
    }

    /// Whether this entry names the extension `id`.
    pub fn names(&self, id: &String) -> (r: bool)
        ensures
            r == names_extension(self@, id@),
    {
        match self {
            ExtensionConfig::Simple(s) => crate::text::str_eq(s.as_str(), id.as_str()),
            ExtensionConfig::Detailed(d) => match &d.id {
                Some(i) => crate::text::str_eq(i.as_str(), id.as_str()),
                None => false,
            },
        }
    }
}

/// The extensions of a build: those the configuration lists, then each one
/// that a package asks for and that no entry names yet.
pub fn merge_extensions(configured: &Option<Vec<ExtensionConfig>>, from_packages: &Vec<String>) -> (r:
    Vec<ExtensionConfig>)
    ensures
        exts_view(r@) == merge_exts(
            match configured {
                Some(v) => exts_view(v@),
                None => Seq::empty(),
            },
            from_packages@.map_values(|s: String| s@),
        ),
{
    let mut out: Vec<ExtensionConfig> = Vec::new();
    match configured {
        Some(v) => {
            let mut k: usize = 0;
            while k < v.len()
                invariant
                    k <= v.len(),
                    out@.len() == k,
                    forall|m: int| 0 <= m < k ==> (#[trigger] out@[m])@ == v@[m]@,
                decreases v.len() - k,
            {
                let e = v[k].duplicate();
                out.push(e);
                k += 1;
            }
            assert(exts_view(out@) =~= exts_view(v@));
        },
        None => {
            assert(exts_view(out@) =~= Seq::<ExtensionConfigV>::empty());
        },
    }
    let ghost base = exts_view(out@);
    let ghost adds = from_packages@.map_values(|s: String| s@);
    let mut i: usize = 0;
    while i < from_packages.len()
        invariant
            i <= from_packages.len(),
            adds == from_packages@.map_values(|s: String| s@),
            exts_view(out@) == merge_exts(base, adds.subrange(0, i as int)),
        decreases from_packages.len() - i,
    {
        let id = &from_packages[i];
        let mut found = false;
        let mut k: usize = 0;
        while k < out.len()
            invariant
                k <= out.len(),
                found == (exists|m: int| 0 <= m < k && names_extension(out@[m]@, id@)),
            decreases out.len() - k,
        {
            if out[k].names(id) {
                found = true;
            }
            k += 1;
        }
        let ghost prev = adds.subrange(0, i as int);
        assert(adds.subrange(0, i + 1).drop_last() =~= prev);
        assert(adds.subrange(0, i + 1).last() == id@);
        assert(found == lists_extension(exts_view(out@), id@)) by {
            if found {
                let m = choose|m: int| 0 <= m < k && names_extension(out@[m]@, id@);
                assert(exts_view(out@)[m] == out@[m]@);
            }
            if lists_extension(exts_view(out@), id@) {
                let m = choose|m: int|
                    0 <= m < exts_view(out@).len() && names_extension(exts_view(out@)[m], id@);
                assert(names_extension(out@[m]@, id@));
            }
        }
        if !found {
            let e = ExtensionConfig::Simple(id.clone());
            proof {
                assert(exts_view(out@.push(e)) =~= exts_view(out@).push(ExtensionConfigV::Simple(id@)));
            }
            out.push(e);
        }
        i += 1;
    }
    assert(adds.subrange(0, i as int) =~= adds);
    out
}

/// Every extension a package asks for is named by the merged list, and the
/// configured entries come first, unchanged.
pub proof fn law_merge_names_all(l: Seq<ExtensionConfigV>, adds: Seq<Seq<char>>)
    ensures
        forall|k: int| 0 <= k < adds.len() ==> lists_extension(merge_exts(l, adds), #[trigger] adds[k]),
        merge_exts(l, adds).len() >= l.len(),
        merge_exts(l, adds).subrange(0, l.len() as int) == l,
    decreases adds.len(),
{
    if adds.len() > 0 {
        let prev = adds.drop_last();
        law_merge_names_all(l, prev);
        let m = merge_exts(l, prev);
        let x = adds.last();
        let r = merge_exts(l, adds);
        assert forall|k: int| 0 <= k < adds.len() implies lists_extension(r, #[trigger] adds[k]) by {
            if k < adds.len() - 1 {
                assert(adds[k] == prev[k]);
                assert(lists_extension(m, prev[k]));
                let w = choose|w: int| 0 <= w < m.len() && names_extension(m[w], prev[k]);
                assert(r[w] == m[w]);
            } else if !lists_extension(m, x) {
                assert(names_extension(r[m.len() as int], x));
            }
        }
        assert(r.subrange(0, l.len() as int) =~= m.subrange(0, l.len() as int));
    }
}

} // verus!
