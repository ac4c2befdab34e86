//! Header inheritance.
//!
//! A request inherits headers from the directories above its definition.
//! Each directory is a scope layer: the headers of its header file, or
//! nothing where the directory has no such file. The layers are laid over
//! each other from the outermost to the innermost, a later layer overwriting
//! an earlier one, and the request's own headers are laid over the result.
//! Which directories these are is read off the path of the request's file.

use crate::dict::{fresh_names, same_text, Dict, Headers};
use crate::locate::{header_dirs, header_dirs_of};
use crate::request::RequestView;
use vstd::prelude::*;

verus! {

/// The headers that the scope layers `layers`, outermost first, pass down.
pub open spec fn inherited_headers(layers: Seq<Option<Headers>>) -> Map<
    Seq<char>,
    Option<Seq<char>>,
>
    decreases layers.len(),
{
    if layers.len() == 0 {
        Map::empty()
    } else {
        let outer = inherited_headers(layers.drop_last());
        match layers.last() {
            Some(layer) => outer.union_prefer_right(layer@),
            None => outer,
        }
    }
}

/// The names of the inherited headers, each where its outermost layer puts
/// it.
pub open spec fn inherited_names(layers: Seq<Option<Headers>>) -> Seq<Seq<char>>
    decreases layers.len(),
{
    if layers.len() == 0 {
        Seq::empty()
    } else {
        let outer = inherited_names(layers.drop_last());
        match layers.last() {
            Some(layer) => outer + fresh_names(
                inherited_headers(layers.drop_last()).dom(),
                layer.names(),
            ),
            None => outer,
        }
    }
}

/// The definition `def` with the headers that `layers` pass down: its own
/// headers stay, and the inherited ones that it lacks are added.
pub open spec fn with_inherited(def: RequestView, layers: Seq<Option<Headers>>) -> RequestView {
    RequestView {
        headers: inherited_headers(layers).union_prefer_right(def.headers),
        header_names: def.header_names + fresh_names(def.headers.dom(), inherited_names(layers)),
        ..def
    }
}

/// Lays one scope layer over the headers gathered so far: a header of the
/// layer overwrites one of the same name, and a directory without a header
/// file changes nothing.
pub fn overwrite_headers(layer: Option<Headers>, headers: &mut Headers)
    ensures
        final(headers)@ == match layer {
            Some(l) => old(headers)@.union_prefer_right(l@),
            None => old(headers)@,
        },
        final(headers).names() == match layer {
            Some(l) => old(headers).names() + fresh_names(old(headers)@.dom(), l.names()),
            None => old(headers).names(),
        },
{
    match layer {
        Some(l) => {
            headers.overwrite_with(l);
        },
        None => {},
    }
}

/// The headers that all of `layers`, outermost first, pass down.
pub fn gather_headers(layers: Vec<Option<Headers>>) -> (headers: Headers)
    ensures
        headers@ == inherited_headers(layers@),
        headers.names() == inherited_names(layers@),
{
    let mut headers = Headers::new();
    for layer in it: layers
        invariant
            it.seq() == layers@,
            headers@ == inherited_headers(layers@.subrange(0, it.index() as int)),
            headers.names() == inherited_names(layers@.subrange(0, it.index() as int)),
    {
        let ghost i = it.index() as int;
        proof {
            assert(layers@.subrange(0, i + 1).drop_last() =~= layers@.subrange(0, i));
            assert(layers@.subrange(0, i + 1).last() == layers@[i]);
        }
        overwrite_headers(layer, &mut headers);
    }
    proof {
        assert(layers@.subrange(0, layers@.len() as int) =~= layers@);
    }
    headers
}

/// The header file of one directory.
#[derive(Debug)]
pub struct HeaderFile {
    /// The directory, as `header_dirs` writes it.
    pub dir: String,
    /// What the directory's header file declares.
    pub headers: Headers,
}

/// The headers of the first of `files` that belongs to the directory `dir`.
pub open spec fn header_file_of(files: Seq<HeaderFile>, dir: Seq<char>) -> Option<Headers>
    decreases files.len(),
{
    if files.len() == 0 {
        None
    } else if files[0].dir@ == dir {
        Some(files[0].headers)
    } else {
        header_file_of(files.drop_first(), dir)
    }
}

/// The scope layers of the directories `dirs`: for each directory the
/// headers of its header file, or nothing where `files` has none for it.
pub open spec fn layers_of(dirs: Seq<Seq<char>>, files: Seq<HeaderFile>) -> Seq<Option<Headers>> {
    Seq::new(dirs.len(), |i: int| header_file_of(files, dirs[i]))
}

/// The scope layers of the request whose file is at `path`: those of the
/// directories above the file, outermost first.
pub open spec fn scope_layers_of(path: Seq<char>, files: Seq<HeaderFile>) -> Seq<Option<Headers>> {
    layers_of(header_dirs_of(path), files)
}

/// Whether two layers hold the same headers in the same order.
pub open spec fn same_layer(a: Option<Headers>, b: Option<Headers>) -> bool {
    match (a, b) {
        (None, None) => true,
        (Some(x), Some(y)) => x@ == y@ && x.names() == y.names(),
        _ => false,
    }
}

/// Whether two lists of layers hold the same headers in the same order,
/// layer by layer.
pub open spec fn same_layers(a: Seq<Option<Headers>>, b: Seq<Option<Headers>>) -> bool {
    a.len() == b.len() && forall|i: int| 0 <= i < a.len() ==> same_layer(#[trigger] a[i], b[i])
}

/// Layers that hold the same headers pass the same headers down.
pub proof fn lemma_same_layers(a: Seq<Option<Headers>>, b: Seq<Option<Headers>>)
    requires
        same_layers(a, b),
    ensures
        inherited_headers(a) == inherited_headers(b),
        inherited_names(a) == inherited_names(b),
    decreases a.len(),
{
    if a.len() > 0 {
        assert forall|i: int| 0 <= i < a.drop_last().len() implies same_layer(
            #[trigger] a.drop_last()[i],
            b.drop_last()[i],
        ) by {
            assert(same_layer(a[i], b[i]));
        }
        lemma_same_layers(a.drop_last(), b.drop_last());
        assert(same_layer(a[a.len() - 1], b[a.len() - 1]));
    }
}

/// A copy of `headers`: the same names with the same values, in the same
/// order.
pub fn copy_headers(headers: &Headers) -> (copy: Headers)
    ensures
        copy@ == headers@,
        copy.names() == headers.names(),
{
    let n = headers.len();
    let ghost names = headers.names();
    let ghost map = headers@;
    proof {
        use_type_invariant(headers);
        headers.lemma_entries();
    }
    let mut copy: Headers = Dict::new();
    let mut i: usize = 0;
    while i < n
        invariant
            names == headers.names(),
            map == headers@,
            n == names.len(),
            i <= n,
            names.no_duplicates(),
            copy.names() == names.subrange(0, i as int),
            forall|j: int|
                0 <= j < i ==> copy@.contains_key(#[trigger] names[j]) && copy@[names[j]]
                    == map[names[j]],
        decreases n - i,
    {
        let name = headers.name_at(i).clone();
        let value: Option<String> = match headers.value_at(i) {
            Some(text) => Some(text.clone()),
            None => None,
        };
        proof {
            use_type_invariant(&copy);
            copy.lemma_entries();
            if copy@.contains_key(name@) {
                let j = choose|j: int|
                    0 <= j < copy.names().len() && copy.names()[j] == names[i as int];
                assert(names[j] == names[i as int]);
            }
        }
        let ghost held = copy@;
        copy.insert(name, value);
        proof {
            assert(copy.names() =~= names.subrange(0, i + 1));
            assert forall|j: int| 0 <= j < i + 1 implies copy@.contains_key(#[trigger] names[j])
                && copy@[names[j]] == map[names[j]] by {
                if j < i {
                    assert(held.contains_key(names[j]));
                }
            }
        }
        i += 1;
    }
    proof {
        use_type_invariant(&copy);
        copy.lemma_entries();
        assert(names.subrange(0, n as int) =~= names);
        assert forall|k: Seq<char>| map.contains_key(k) implies copy@.contains_key(k) && copy@[k]
            == map[k] by {
            let j = choose|j: int| 0 <= j < names.len() && names[j] == k;
            assert(copy@.contains_key(names[j]));
        }
        assert(copy@ =~= map);
    }
    copy
}

/// The headers of the first of `files` that belongs to the directory `dir`.
pub fn find_header_file<'a>(files: &'a Vec<HeaderFile>, dir: &str) -> (r: Option<&'a Headers>)
    ensures
        match r {
            Some(headers) => header_file_of(files@, dir@) == Some(*headers),
            None => header_file_of(files@, dir@) is None,
        },
{
    let mut i: usize = 0;
    assert(files@.skip(0) =~= files@);
    while i < files.len()
        invariant
            i <= files.len(),
            header_file_of(files@, dir@) == header_file_of(files@.skip(i as int), dir@),
        decreases files.len() - i,
    {
        assert(files@.skip(i as int)[0] == files@[i as int]);
        if same_text(files[i].dir.as_str(), dir) {
            return Some(&files[i].headers);
        }
        assert(files@.skip(i as int).drop_first() =~= files@.skip(i + 1));
        i += 1;
    }
    None
}

/// The scope layers of the request whose file is at `path`, outermost
/// first, with the headers copied out of `files`.
pub fn scope_layers(path: &str, files: &Vec<HeaderFile>) -> (layers: Vec<Option<Headers>>)
    ensures
        same_layers(layers@, scope_layers_of(path@, files@)),
{
    let dirs = header_dirs(path);
    let ghost wanted = scope_layers_of(path@, files@);
    let mut layers: Vec<Option<Headers>> = Vec::new();
    let mut i: usize = 0;
    while i < dirs.len()
        invariant
            i <= dirs.len(),
            crate::text::texts(dirs@) == header_dirs_of(path@),
            wanted == scope_layers_of(path@, files@),
            layers@.len() == i,
            forall|j: int| 0 <= j < i ==> same_layer(#[trigger] layers@[j], wanted[j]),
        decreases dirs.len() - i,
    {
        assert(crate::text::texts(dirs@)[i as int] == dirs@[i as int]@);
        let layer = match find_header_file(files, dirs[i].as_str()) {
            Some(headers) => Some(copy_headers(headers)),
            None => None,
        };
        assert(same_layer(layer, wanted[i as int]));
        layers.push(layer);
        i += 1;
    }
    layers
}

/// A header that the definition declares itself keeps the definition's
/// value, whatever the directories above declare.
pub proof fn lemma_file_wins(def: RequestView, layers: Seq<Option<Headers>>, h: Seq<char>)
    requires
        def.headers.contains_key(h),
    ensures
        with_inherited(def, layers).headers.contains_key(h),
        with_inherited(def, layers).headers[h] == def.headers[h],
{
}

/// Of the directories that declare a header, the innermost gives the
/// inherited value.
pub proof fn lemma_innermost_layer(layers: Seq<Option<Headers>>, j: int, h: Seq<char>)
    requires
        0 <= j < layers.len(),
        layers[j] matches Some(layer) && layer@.contains_key(h),
        forall|m: int|
            j < m < layers.len() ==> !(#[trigger] layers[m] matches Some(layer)
                && layer@.contains_key(h)),
    ensures
        inherited_headers(layers).contains_key(h),
        inherited_headers(layers)[h] == layers[j]->0@[h],
    decreases layers.len(),
{
    if j < layers.len() - 1 {
        let outer = layers.drop_last();
        assert forall|m: int| j < m < outer.len() implies !(#[trigger] outer[m] matches Some(layer)
            && layer@.contains_key(h)) by {
            assert(outer[m] == layers[m]);
        }
        assert(outer[j] == layers[j]);
        lemma_innermost_layer(outer, j, h);
        assert(layers.last() == layers[layers.len() - 1]);
    }
}

/// Where two directories at different depths declare a header that neither
/// a directory further in nor the definition itself declares, the request
/// gets the value of the deeper of the two.
pub proof fn lemma_deeper_wins(
    def: RequestView,
    layers: Seq<Option<Headers>>,
    i: int,
    j: int,
    h: Seq<char>,
)
    requires
        0 <= i < j < layers.len(),
        layers[i] matches Some(layer) && layer@.contains_key(h),
        layers[j] matches Some(layer) && layer@.contains_key(h),
        forall|m: int|
            j < m < layers.len() ==> !(#[trigger] layers[m] matches Some(layer)
                && layer@.contains_key(h)),
        !def.headers.contains_key(h),
    ensures
        with_inherited(def, layers).headers.contains_key(h),
        with_inherited(def, layers).headers[h] == layers[j]->0@[h],
{
    lemma_innermost_layer(layers, j, h);
}

/// A directory without a header file contributes nothing: with such a layer
/// put in at any depth, the same headers are inherited, in the same order.
pub proof fn lemma_missing_layer(layers: Seq<Option<Headers>>, i: int)
    requires
        0 <= i <= layers.len(),
    ensures
        inherited_headers(layers.insert(i, None)) == inherited_headers(layers),
        inherited_names(layers.insert(i, None)) == inherited_names(layers),
    decreases layers.len(),
{
    let with = layers.insert(i, None);
    if i == layers.len() {
        assert(with.drop_last() =~= layers);
    } else {
        assert(with.drop_last() =~= layers.drop_last().insert(i, None));
        assert(with.last() == layers.last());
        lemma_missing_layer(layers.drop_last(), i);
    }
}

} // verus!
