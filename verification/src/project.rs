//! The steps of a build between parsing and writing the archive: putting a
//! package file together, sharing the public variables of sprites with the
//! stage, the list of extension ids of the project, and the names of files.
use vstd::prelude::*;
use crate::ast::{
    Item, ItemV, Package, PackageV, Visibility, item_view, items_view, lemma_items_view,
    lemma_items_view_push, strs_view,
};
use crate::text::{chars_of, push_char, str_eq};
use crate::sb3::Target;

verus! {

// ---------------------------------------------------------------------------
// Package files
// ---------------------------------------------------------------------------

/// Why a package file cannot be used.
#[derive(Debug, Clone, Copy, PartialEq, Eq, Structural)]
pub enum PackageError {
    /// The file declares more than one package.
    MultipleDeclarations,
    /// The file declares no package.
    MissingDeclaration,
}

pub open spec fn is_package(it: ItemV) -> bool {
    it is Package
}

/// The number of package declarations among the items.
pub open spec fn package_count(items: Seq<ItemV>) -> nat
    decreases items.len(),
{
    if items.len() == 0 {
        0
    } else {
        package_count(items.drop_last()) + if is_package(items.last()) {
            1nat
        } else {
            0nat
        }
    }
}

/// The items that are not package declarations, in order.
pub open spec fn non_package_items(items: Seq<ItemV>) -> Seq<ItemV>
    decreases items.len(),
{
    if items.len() == 0 {
        Seq::empty()
    } else {
        let rest = non_package_items(items.drop_last());
        if is_package(items.last()) {
            rest
        } else {
            rest.push(items.last())
        }
    }
}

/// The package declaration among the items (the last one, if there are
/// several).
pub open spec fn declared_package(items: Seq<ItemV>) -> Option<PackageV>
    decreases items.len(),
{
    if items.len() == 0 {
        None
    } else {
        match items.last() {
            ItemV::Package(p) => Some(p),
            _ => declared_package(items.drop_last()),
        }
    }
}

/// The package that a package file defines: its one `package` declaration,
/// holding all the other items of the file.
pub fn assemble_package(items: &Vec<Item>) -> (r: Result<Package, PackageError>)
    ensures
        package_count(items_view(items@)) == 0 <==> r == Err::<Package, PackageError>(
            PackageError::MissingDeclaration,
        ),
        package_count(items_view(items@)) >= 2 <==> r == Err::<Package, PackageError>(
            PackageError::MultipleDeclarations,
        ),
        r matches Ok(p) ==> {
            &&& package_count(items_view(items@)) == 1
            &&& declared_package(items_view(items@)) matches Some(d)
            &&& p@.name == d.name
            &&& p@.extensions == d.extensions
            &&& p@.dependencies == d.dependencies
            &&& p@.items == non_package_items(items_view(items@))
        },
{
    let ghost iv = items_view(items@);
    proof {
        lemma_items_view(items@);
    }
    let mut found: Option<Package> = None;
    let mut rest: Vec<Item> = Vec::new();
    let mut count: usize = 0;
    let mut k: usize = 0;
    proof {
        assert(items_view(rest@) =~= Seq::<ItemV>::empty());
    }
    while k < items.len()
        invariant
            k <= items.len(),
            iv == items_view(items@),
            iv.len() == items@.len(),
            forall|m: int| 0 <= m < items@.len() ==> #[trigger] iv[m] == item_view(items@[m]),
            count == package_count(iv.subrange(0, k as int)),
            count <= k,
            items_view(rest@) == non_package_items(iv.subrange(0, k as int)),
            count > 0 ==> (found matches Some(p) && declared_package(iv.subrange(0, k as int))
                == Some(p@)),
            count == 0 ==> found is None && declared_package(iv.subrange(0, k as int)) is None,
        decreases items.len() - k,
    {
        let it = items[k].duplicate();
        proof {
            assert(iv.subrange(0, k + 1).drop_last() =~= iv.subrange(0, k as int));
            assert(iv.subrange(0, k + 1).last() == item_view(it));
        }
        match it {
            Item::Package(p) => {
                count += 1;
                found = Some(p);
            },
            other => {
                proof {
                    lemma_items_view_push(rest@, other);
                }
                rest.push(other);
            },
        }
        k += 1;
    }
    proof {
        assert(iv.subrange(0, k as int) =~= iv);
    }
    if count >= 2 {
        return Err(PackageError::MultipleDeclarations);
    }
    match found {
        Some(p) => Ok(Package { name: p.name, extensions: p.extensions, dependencies: p.dependencies, items: rest }),
        None => Err(PackageError::MissingDeclaration),
    }
}

/// The message for a package file that cannot be used.
pub fn package_error_message(e: PackageError, path: &str) -> (r: String)
    ensures
        r@ == match e {
            PackageError::MultipleDeclarations => "Package file '"@ + path@
                + "' contains multiple package declarations"@,
            PackageError::MissingDeclaration => "Package file '"@ + path@
                + "' must contain a package declaration"@,
        },
{
    let mut out = String::from_str("Package file '");
    out.append(path);
    match e {
        PackageError::MultipleDeclarations => out.append("' contains multiple package declarations"),
        PackageError::MissingDeclaration => out.append("' must contain a package declaration"),
    }
    out
}

// ---------------------------------------------------------------------------
// Public variables
// ---------------------------------------------------------------------------

/// Whether the item declares a variable named `name`.
pub open spec fn is_variable_named(it: ItemV, name: Seq<char>) -> bool {
    match it {
        ItemV::Variable(d) => d.name == name,
        _ => false,
    }
}

/// The name of the item, if it is a public variable.
pub open spec fn public_variable(it: ItemV) -> Option<Seq<char>> {
    match it {
        ItemV::Variable(d) => if d.visibility == Visibility::Public {
            Some(d.name)
        } else {
            None
        },
        _ => None,
    }
}

/// Whether a variable named `name` is declared among the items.
pub open spec fn declares_variable(items: Seq<ItemV>, name: Seq<char>) -> bool {
    exists|k: int| 0 <= k < items.len() && is_variable_named(#[trigger] items[k], name)
}

/// The stage's items after a sprite's public variables are shared with it:
/// each public variable of the sprite, in order, is added unless the stage
/// already declares a variable of that name.
pub open spec fn share_vars(stage: Seq<ItemV>, sprite: Seq<ItemV>) -> Seq<ItemV>
    decreases sprite.len(),
{
    if sprite.len() == 0 {
        stage
    } else {
        let st = share_vars(stage, sprite.drop_last());
        match sprite.last() {
            ItemV::Variable(d) => if d.visibility == Visibility::Public && !declares_variable(
                st,
                d.name,
            ) {
                st.push(sprite.last())
            } else {
                st
            },
            _ => st,
        }
    }
}

/// Shares a sprite's public variables with the stage, so that they become
/// global: each is added to the stage's items unless the stage already
/// declares a variable of that name.
pub fn share_public_variables(stage: &mut Vec<Item>, sprite: &Vec<Item>)
    ensures
        items_view(final(stage)@) == share_vars(items_view(old(stage)@), items_view(sprite@)),
{
    let ghost st0 = items_view(stage@);
    let ghost sv = items_view(sprite@);
    proof {
        lemma_items_view(sprite@);
    }
    let mut i: usize = 0;
    while i < sprite.len()
        invariant
            i <= sprite.len(),
            sv == items_view(sprite@),
            sv.len() == sprite@.len(),
            forall|k: int| 0 <= k < sprite@.len() ==> #[trigger] sv[k] == item_view(sprite@[k]),
            items_view(stage@) == share_vars(st0, sv.subrange(0, i as int)),
        decreases sprite.len() - i,
    {
        let ghost pre = sv.subrange(0, i + 1);
        assert(pre.drop_last() =~= sv.subrange(0, i as int));
        assert(pre.last() == item_view(sprite@[i as int]));
        match &sprite[i] {
            Item::Variable(d) => {
                if d.visibility == Visibility::Public {
                    let mut exists = false;
                    let mut k: usize = 0;
                    proof {
                        lemma_items_view(stage@);
                    }
                    while k < stage.len()
                        invariant
                            k <= stage.len(),
                            items_view(stage@).len() == stage@.len(),
                            forall|m: int|
                                0 <= m < stage@.len() ==> #[trigger] items_view(stage@)[m]
                                    == item_view(stage@[m]),
                            exists == (exists|m: int|
                                0 <= m < k && is_variable_named(
                                    #[trigger] items_view(stage@)[m],
                                    d.name@,
                                )),
                        decreases stage.len() - k,
                    {
                        match &stage[k] {
                            Item::Variable(v) => {
                                if str_eq(v.name.as_str(), d.name.as_str()) {
                                    exists = true;
                                }
                            },
                            _ => {},
                        }
                        assert(items_view(stage@)[k as int] == item_view(stage@[k as int]));
                        k += 1;
                    }
                    if !exists {
                        let copy = sprite[i].duplicate();
                        proof {
                            lemma_items_view_push(stage@, copy);
                        }
                        stage.push(copy);
                    }
                }
            },
            _ => {},
        }
        i += 1;
    }
    assert(sv.subrange(0, i as int) =~= sv);
}

/// After sharing, the stage declares every public variable of the sprite,
/// and what it held before stays first, unchanged.
pub proof fn law_shared_variables_are_global(stage: Seq<ItemV>, sprite: Seq<ItemV>)
    ensures
        forall|k: int|
            0 <= k < sprite.len() ==> (#[trigger] public_variable(sprite[k]) matches Some(n)
                ==> declares_variable(share_vars(stage, sprite), n)),
        share_vars(stage, sprite).len() >= stage.len(),
        share_vars(stage, sprite).subrange(0, stage.len() as int) == stage,
    decreases sprite.len(),
{
    if sprite.len() > 0 {
        let prev = sprite.drop_last();
        law_shared_variables_are_global(stage, prev);
        let st = share_vars(stage, prev);
        let r = share_vars(stage, sprite);
        assert forall|k: int|
            0 <= k < sprite.len() implies (#[trigger] public_variable(sprite[k]) matches Some(n)
            ==> declares_variable(r, n)) by {
            if let Some(n) = public_variable(sprite[k]) {
                if k < sprite.len() - 1 {
                    assert(sprite[k] == prev[k]);
                    assert(declares_variable(st, n));
                    let w = choose|w: int| 0 <= w < st.len() && is_variable_named(#[trigger] st[w], n);
                    assert(r[w] == st[w]);
                } else if !declares_variable(st, n) {
                    assert(r[st.len() as int] == sprite[k]);
                    assert(is_variable_named(r[st.len() as int], n));
                }
            }
        }
        assert(r.subrange(0, stage.len() as int) =~= st.subrange(0, stage.len() as int));
    }
}

// ---------------------------------------------------------------------------
// Extensions of the project
// ---------------------------------------------------------------------------

/// The order of texts by their characters, as `str`'s `<` orders them
/// (UTF-8 keeps the order of code points).
pub open spec fn text_lt(a: Seq<char>, b: Seq<char>) -> bool
    decreases a.len(),
{
    if b.len() == 0 {
        false
    } else if a.len() == 0 {
        true
    } else if a[0] != b[0] {
        a[0] < b[0]
    } else {
        text_lt(a.drop_first(), b.drop_first())
    }
}

proof fn lemma_text_lt_irreflexive(a: Seq<char>)
    ensures
        !text_lt(a, a),
    decreases a.len(),
{
    if a.len() > 0 {
        lemma_text_lt_irreflexive(a.drop_first());
    }
}

proof fn lemma_text_lt_transitive(a: Seq<char>, b: Seq<char>, c: Seq<char>)
    requires
        text_lt(a, b),
        text_lt(b, c),
    ensures
        text_lt(a, c),
    decreases a.len(),
{
    if a.len() > 0 && b.len() > 0 && c.len() > 0 && a[0] == b[0] && b[0] == c[0] {
        lemma_text_lt_transitive(a.drop_first(), b.drop_first(), c.drop_first());
    }
}

proof fn lemma_text_lt_total(a: Seq<char>, b: Seq<char>)
    requires
        a != b,
    ensures
        text_lt(a, b) || text_lt(b, a),
    decreases a.len(),
{
    if a.len() > 0 && b.len() > 0 {
        if a[0] == b[0] {
            if a.drop_first() == b.drop_first() {
                assert(a =~= seq![a[0]] + a.drop_first());
                assert(b =~= seq![b[0]] + b.drop_first());
            }
            lemma_text_lt_total(a.drop_first(), b.drop_first());
        }
    } else if a.len() == 0 && b.len() == 0 {
        assert(a =~= b);
    }
}

proof fn lemma_text_lt_skip(a: Seq<char>, b: Seq<char>, k: int)
    requires
        0 <= k < a.len(),
        k < b.len(),
        a[k] == b[k],
    ensures
        text_lt(a.subrange(k, a.len() as int), b.subrange(k, b.len() as int)) == text_lt(
            a.subrange(k + 1, a.len() as int),
            b.subrange(k + 1, b.len() as int),
        ),
{
    assert(a.subrange(k, a.len() as int).drop_first() =~= a.subrange(k + 1, a.len() as int));
    assert(b.subrange(k, b.len() as int).drop_first() =~= b.subrange(k + 1, b.len() as int));
}

/// Whether `a` comes before `b` in the order of texts.
fn text_lt_x(a: &String, b: &String) -> (r: bool)
    ensures
        r == text_lt(a@, b@),
{
    let x = chars_of(a.as_str());
    let y = chars_of(b.as_str());
    let mut k: usize = 0;
    assert(x@.subrange(0, x@.len() as int) =~= x@);
    assert(y@.subrange(0, y@.len() as int) =~= y@);
    while k < x.len() && k < y.len() && x[k] == y[k]
        invariant
            k <= x.len(),
            k <= y.len(),
            x@ == a@,
            y@ == b@,
            text_lt(x@.subrange(k as int, x@.len() as int), y@.subrange(k as int, y@.len() as int))
                == text_lt(a@, b@),
        decreases x.len() - k,
    {
        proof {
            lemma_text_lt_skip(x@, y@, k as int);
        }
        k += 1;
    }
    let ghost xs = x@.subrange(k as int, x@.len() as int);
    let ghost ys = y@.subrange(k as int, y@.len() as int);
    if k >= y.len() {
        assert(ys.len() == 0);
        false
    } else if k >= x.len() {
        assert(xs.len() == 0);
        true
    } else {
        assert(xs[0] == x@[k as int] && ys[0] == y@[k as int]);
        x[k] < y[k]
    }
}

/// An extension loaded for a build: its id, and the id under which the
/// project names it where that differs.
#[derive(Debug)]
pub struct LoadedExtension {
    pub id: String,
    pub project_id: Option<String>,
}

pub ghost struct LoadedExtensionV {
    pub id: Seq<char>,
    pub project_id: Option<Seq<char>>,
}

impl View for LoadedExtension {
    type V = LoadedExtensionV;

    open spec fn view(&self) -> LoadedExtensionV {
        LoadedExtensionV {
            id: self.id@,
            project_id: match self.project_id {
                Some(p) => Some(p@),
                None => None,
            },
        }
    }
}

/// The `return` extension is the compiler's own and is not listed in the
/// project.
pub open spec fn listed(e: LoadedExtensionV) -> bool {
    e.id != "return"@
}

/// Whether `l` is in strictly increasing order of texts (so without
/// repetitions).
pub open spec fn strictly_sorted(l: Seq<Seq<char>>) -> bool {
    forall|a: int, b: int| 0 <= a < b < l.len() ==> text_lt(#[trigger] l[a], #[trigger] l[b])
}

/// The pairs (id, project id) of the listed extensions whose project id
/// differs from their id, in order.
pub open spec fn extension_urls(exts: Seq<LoadedExtensionV>) -> Seq<(Seq<char>, Seq<char>)>
    decreases exts.len(),
{
    if exts.len() == 0 {
        Seq::empty()
    } else {
        let rest = extension_urls(exts.drop_last());
        let e = exts.last();
        match e.project_id {
            Some(p) => if listed(e) && p != e.id {
                rest.push((e.id, p))
            } else {
                rest
            },
            None => rest,
        }
    }
}

/// Whether an extension makes the project need more than vanilla Scratch:
/// the `return` extension, one named differently in the project, or any but
/// `pen` and `music`.
pub open spec fn non_standard(e: LoadedExtensionV) -> bool {
    ||| !listed(e)
    ||| (e.project_id matches Some(p) && p != e.id)
    ||| (e.id != "pen"@ && e.id != "music"@)
}

/// What a project records of its extensions.
#[derive(Debug)]
pub struct ProjectExtensions {
    /// The ids, sorted and without repetitions.
    pub ids: Vec<String>,
    /// (id, project id) for the extensions named differently in the project.
    pub urls: Vec<(String, String)>,
    /// Whether the project needs more than vanilla Scratch.
    pub non_standard: bool,
}

/// The extension ids a project lists (all but `return`, sorted, each once),
/// the extensions it names differently, and whether it needs more than
/// vanilla Scratch.
pub fn project_extensions(exts: &Vec<LoadedExtension>) -> (r: ProjectExtensions)
    ensures
        strictly_sorted(strs_view(r.ids@)),
        forall|x: Seq<char>|
            #[trigger] strs_view(r.ids@).contains(x) <==> exists|k: int|
                0 <= k < exts@.len() && listed(#[trigger] exts@[k]@) && exts@[k]@.id == x,
        r.urls@.map_values(|p: (String, String)| (p.0@, p.1@)) == extension_urls(
            exts@.map_values(|e: LoadedExtension| e@),
        ),
        r.non_standard == exists|k: int| 0 <= k < exts@.len() && non_standard(#[trigger] exts@[k]@),
{
    let ghost ev = exts@.map_values(|e: LoadedExtension| e@);
    let mut ids: Vec<String> = Vec::new();
    let mut urls: Vec<(String, String)> = Vec::new();
    let mut flag = false;
    let mut i: usize = 0;
    while i < exts.len()
        invariant
            i <= exts.len(),
            ev == exts@.map_values(|e: LoadedExtension| e@),
            strictly_sorted(strs_view(ids@)),
            forall|x: Seq<char>|
                #[trigger] strs_view(ids@).contains(x) <==> exists|k: int|
                    0 <= k < i && listed(#[trigger] exts@[k]@) && exts@[k]@.id == x,
            urls@.map_values(|p: (String, String)| (p.0@, p.1@)) == extension_urls(
                ev.subrange(0, i as int),
            ),
            flag == exists|k: int| 0 <= k < i && non_standard(#[trigger] exts@[k]@),
        decreases exts.len() - i,
    {
        let e = &exts[i];
        let ghost idv = strs_view(ids@);
        let ghost ei = exts@[i as int]@;
        proof {
            assert(ev.subrange(0, i + 1).drop_last() =~= ev.subrange(0, i as int));
            assert(ev.subrange(0, i + 1).last() == ei);
            reveal_strlit("return");
        }
        let is_return = str_eq(e.id.as_str(), "return");
        if is_return {
            flag = true;
            assert(non_standard(ei));
        } else {
            // the first position whose id is not below e.id
            let mut p: usize = 0;
            while p < ids.len() && text_lt_x(&ids[p], &e.id)
                invariant
                    p <= ids.len(),
                    idv == strs_view(ids@),
                    forall|m: int| 0 <= m < p ==> text_lt(#[trigger] idv[m], e.id@),
                decreases ids.len() - p,
            {
                p += 1;
            }
            let present = p < ids.len() && str_eq(ids[p].as_str(), e.id.as_str());
            if !present {
                proof {
                    if p < ids.len() {
                        lemma_text_lt_total(idv[p as int], e.id@);
                    }
                }
                let ghost newv = idv.insert(p as int, e.id@);
                ids.insert(p, e.id.clone());
                proof {
                    assert(strs_view(ids@) =~= newv);
                    assert forall|a: int, b: int|
                        0 <= a < b < newv.len() implies text_lt(
                        #[trigger] newv[a],
                        #[trigger] newv[b],
                    ) by {
                        if b < p {
                            assert(newv[a] == idv[a] && newv[b] == idv[b]);
                        } else if b == p {
                            assert(newv[a] == idv[a]);
                        } else if a == p {
                            assert(newv[b] == idv[b - 1]);
                            if b - 1 > p {
                                assert(text_lt(idv[p as int], idv[b - 1]));
                                lemma_text_lt_transitive(e.id@, idv[p as int], idv[b - 1]);
                            }
                        } else if a < p {
                            assert(newv[a] == idv[a] && newv[b] == idv[b - 1]);
                            if b - 1 >= p {
                                lemma_text_lt_transitive(idv[a], e.id@, idv[p as int]);
                                if b - 1 > p {
                                    lemma_text_lt_transitive(idv[a], idv[p as int], idv[b - 1]);
                                }
                            }
                        } else {
                            assert(newv[a] == idv[a - 1] && newv[b] == idv[b - 1]);
                        }
                    }
                    assert forall|x: Seq<char>| newv.contains(x) <==> (idv.contains(x) || x == e.id@) by {
                        if newv.contains(x) {
                            let w = choose|w: int| 0 <= w < newv.len() && newv[w] == x;
                            if w < p {
                                assert(idv[w] == x);
                            } else if w > p {
                                assert(idv[w - 1] == x);
                            }
                        }
                        if idv.contains(x) {
                            let w = choose|w: int| 0 <= w < idv.len() && idv[w] == x;
                            if w < p {
                                assert(newv[w] == x);
                            } else {
                                assert(newv[w + 1] == x);
                            }
                        }
                        if x == e.id@ {
                            assert(newv[p as int] == x);
                        }
                    }
                }
            } else {
                assert(idv[p as int] == e.id@);
                assert(idv.contains(e.id@));
            }
            match &e.project_id {
                Some(pid) => {
                    if !str_eq(pid.as_str(), e.id.as_str()) {
                        let pair = (e.id.clone(), pid.clone());
                        proof {
                            assert(urls@.push(pair).map_values(|p: (String, String)| (p.0@, p.1@))
                                =~= urls@.map_values(|p: (String, String)| (p.0@, p.1@)).push(
                                (e.id@, pid@),
                            ));
                        }
                        urls.push(pair);
                        flag = true;
                    }
                },
                None => {},
            }
            proof {
                reveal_strlit("pen");
                reveal_strlit("music");
            }
            if !str_eq(e.id.as_str(), "pen") && !str_eq(e.id.as_str(), "music") {
                flag = true;
            }
        }
        proof {
            assert forall|x: Seq<char>|
                #[trigger] strs_view(ids@).contains(x) <==> exists|k: int|
                    0 <= k < i + 1 && listed(#[trigger] exts@[k]@) && exts@[k]@.id == x by {
                if x == ei.id && listed(ei) {
                    assert(exts@[i as int]@ == ei);
                }
            }
            assert(flag == exists|k: int| 0 <= k < i + 1 && non_standard(#[trigger] exts@[k]@)) by {
                if non_standard(ei) {
                    assert(exts@[i as int]@ == ei);
                }
            }
        }
        i += 1;
    }
    assert(ev.subrange(0, i as int) =~= ev);
    ProjectExtensions { ids, urls, non_standard: flag }
}

// ---------------------------------------------------------------------------
// Names of files and targets
// ---------------------------------------------------------------------------

/// A path as shown to the user: with `/` for every `\`.
pub fn format_path(path: &str) -> (r: String)
    ensures
        r@ == path@.map_values(|c: char| if c == '\\' { '/' } else { c }),
{
    let cs = chars_of(path);
    let mut out = String::new();
    let mut i: usize = 0;
    while i < cs.len()
        invariant
            i <= cs.len(),
            cs@ == path@,
            out@ == cs@.subrange(0, i as int).map_values(|c: char| if c == '\\' { '/' } else { c }),
        decreases cs.len() - i,
    {
        let c = if cs[i] == '\\' { '/' } else { cs[i] };
        push_char(&mut out, c);
        assert(cs@.subrange(0, i + 1).map_values(|c: char| if c == '\\' { '/' } else { c })
            =~= cs@.subrange(0, i as int).map_values(|c: char| if c == '\\' { '/' } else { c }).push(
            c,
        ));
        i += 1;
    }
    assert(cs@.subrange(0, i as int) =~= cs@);
    out
}

/// The file a project is written to: its name with `/` and `\` replaced by
/// `_`, then `.sb3`.
pub fn output_file_name(name: &str) -> (r: String)
    ensures
        r@ == name@.map_values(|c: char| if c == '/' || c == '\\' { '_' } else { c }) + ".sb3"@,
{
    let cs = chars_of(name);
    let mut out = String::new();
    let mut i: usize = 0;
    while i < cs.len()
        invariant
            i <= cs.len(),
            cs@ == name@,
            out@ == cs@.subrange(0, i as int).map_values(
                |c: char| if c == '/' || c == '\\' { '_' } else { c },
            ),
        decreases cs.len() - i,
    {
        let c = if cs[i] == '/' || cs[i] == '\\' { '_' } else { cs[i] };
        push_char(&mut out, c);
        assert(cs@.subrange(0, i + 1).map_values(
            |c: char| if c == '/' || c == '\\' { '_' } else { c },
        ) =~= cs@.subrange(0, i as int).map_values(
            |c: char| if c == '/' || c == '\\' { '_' } else { c },
        ).push(c));
        i += 1;
    }
    assert(cs@.subrange(0, i as int) =~= cs@);
    out.append(".sb3");
    out
}

/// Gives a compiled sprite its name from the configuration, `Sprite` where
/// none is given.
pub fn name_sprite(target: &mut Target, name: &Option<String>)
    ensures
        final(target).name@ == match name {
            Some(n) => n@,
            None => "Sprite"@,
        },
{
    target.name = match name {
        Some(n) => n.clone(),
        None => String::from_str("Sprite"),
    };
}

/// The `scrust.toml` of a new project called `project_name`: its output in
/// `dist/`, a stage and one sprite.
pub fn project_config_text(project_name: &str) -> (r: String)
    ensures
        r@ == "[project]\nname = \""@ + project_name@
            + "\"\noutput = \"dist/project.sb3\"\n\n[stage]\npath = \"src/stage.sr\"\n\n[[sprite]]\nname = \"Sprite1\"\npath = \"src/sprite.sr\"\n"@,
{
    let mut out = String::from_str("[project]\nname = \"");
    out.append(project_name);
    out.append(
        "\"\noutput = \"dist/project.sb3\"\n\n[stage]\npath = \"src/stage.sr\"\n\n[[sprite]]\nname = \"Sprite1\"\npath = \"src/sprite.sr\"\n",
    );
    out
}

} // verus!
