//! What is kept of models that have been loaded and placed: parse results,
//! tasks under way, handles of meshes and materials, and pools of textures.
use crate::asset_map::AssetMap;
use crate::mmb_load::{texture_data, LoadedMmb, NamedTexture, TextureData};
use crate::text::same_text;
use std::collections::HashMap;
use vstd::prelude::*;

verus! {

broadcast use vstd::std_specs::hash::group_hash_axioms;

/// Parse results by chunk: `None` where loading failed.
pub struct MmbParseCache {
    pub by_asset: AssetMap<Option<LoadedMmb>>,
}

impl Default for MmbParseCache {
    fn default() -> (c: MmbParseCache)
        ensures
            c.by_asset@ == Map::<(u32, usize), Option<LoadedMmb>>::empty(),
    {
        MmbParseCache { by_asset: AssetMap::new() }
    }
}

impl MmbParseCache {
    /// The model of a chunk, where it was loaded.
    pub open spec fn model(&self, file_id: u32, chunk_idx: usize) -> Option<LoadedMmb> {
        if self.by_asset@.contains_key((file_id, chunk_idx)) {
            self.by_asset@[(file_id, chunk_idx)]
        } else {
            None
        }
    }

    /// The model of a chunk, where it was loaded.
    pub fn loaded(&self, file_id: u32, chunk_idx: usize) -> (r: Option<&LoadedMmb>)
        ensures
            match r {
                Some(m) => self.model(file_id, chunk_idx) == Some(*m),
                None => self.model(file_id, chunk_idx) is None,
            },
            match r {
                Some(m) => self.by_asset@.contains_key((file_id, chunk_idx)) && self.by_asset@[(
                    file_id,
                    chunk_idx,
                )] == Some(*m),
                None => self.by_asset@.contains_key((file_id, chunk_idx)) ==> self.by_asset@[(
                    file_id,
                    chunk_idx,
                )] is None,
            },
    {
        match self.by_asset.get(file_id, chunk_idx) {
            Some(Some(m)) => Some(m),
            _ => None,
        }
    }

    /// Takes in a parse result. One that is there stays.
    pub fn absorb(&mut self, file_id: u32, chunk_idx: usize, result: Option<LoadedMmb>)
        ensures
            final(self).by_asset@ == (if old(self).by_asset@.contains_key((file_id, chunk_idx)) {
                old(self).by_asset@
            } else {
                old(self).by_asset@.insert((file_id, chunk_idx), result)
            }),
    {
        if !self.by_asset.contains(file_id, chunk_idx) {
            self.by_asset.insert(file_id, chunk_idx, result);
        }
    }

    /// Drops the parse result of a chunk.
    pub fn drop_chunk(&mut self, file_id: u32, chunk_idx: usize)
        ensures
            final(self).by_asset@ == old(self).by_asset@.remove((file_id, chunk_idx)),
    {
        let _ = self.by_asset.remove(file_id, chunk_idx);
    }
}

/// The tasks that parse chunks.
#[verifier::reject_recursive_types(T)]
pub struct MmbLoadInFlight<T> {
    pub tasks: AssetMap<T>,
}

impl<T> Default for MmbLoadInFlight<T> {
    fn default() -> (f: MmbLoadInFlight<T>)
        ensures
            f.tasks@ == Map::<(u32, usize), T>::empty(),
    {
        MmbLoadInFlight { tasks: AssetMap::new() }
    }
}

/// The handle under a number, in a list of handles with their numbers.
pub open spec fn numbered<K, H>(list: Seq<(K, H)>, key: K) -> Option<H>
    decreases list.len(),
{
    if list.len() == 0 {
        None
    } else if list[0].0 == key {
        Some(list[0].1)
    } else {
        numbered(list.drop_first(), key)
    }
}

proof fn lemma_numbered_push<K, H>(list: Seq<(K, H)>, key: K, handle: H, other: K)
    ensures
        numbered(list.push((key, handle)), other) == (if numbered(list, other) is Some {
            numbered(list, other)
        } else if other == key {
            Some(handle)
        } else {
            None
        }),
    decreases list.len(),
{
    let longer = list.push((key, handle));
    if list.len() > 0 {
        lemma_numbered_push(list.drop_first(), key, handle, other);
        assert(longer.drop_first() =~= list.drop_first().push((key, handle)));
    } else {
        assert(longer.drop_first() =~= Seq::<(K, H)>::empty());
        assert(numbered(longer.drop_first(), other) is None);
    }
}

proof fn lemma_numbered_at<K, H>(list: Seq<(K, H)>, key: K, i: int)
    requires
        0 <= i < list.len(),
        list[i].0 == key,
        forall|j: int| 0 <= j < i ==> (#[trigger] list[j]).0 != key,
    ensures
        numbered(list, key) == Some(list[i].1),
    decreases i,
{
    if i > 0 {
        assert(list[0].0 != key);
        let rest = list.drop_first();
        assert forall|j: int| 0 <= j < i - 1 implies (#[trigger] rest[j]).0 != key by {
            assert(rest[j] == list[j + 1]);
        }
        lemma_numbered_at(rest, key, i - 1);
    }
}

proof fn lemma_numbered_none<K, H>(list: Seq<(K, H)>, key: K)
    requires
        forall|j: int| 0 <= j < list.len() ==> (#[trigger] list[j]).0 != key,
    ensures
        numbered(list, key) is None,
    decreases list.len(),
{
    if list.len() > 0 {
        assert(list[0].0 != key);
        let rest = list.drop_first();
        assert forall|j: int| 0 <= j < rest.len() implies (#[trigger] rest[j]).0 != key by {
            assert(rest[j] == list[j + 1]);
        }
        lemma_numbered_none(rest, key);
    }
}

/// The handle under a number is the first with that number; under a number that
/// none has there is none.
pub proof fn the_first_of_a_number_counts<K, H>(list: Seq<(K, H)>, key: K, i: int)
    requires
        0 <= i <= list.len(),
        forall|j: int| 0 <= j < i ==> (#[trigger] list[j]).0 != key,
    ensures
        i < list.len() && list[i].0 == key ==> numbered(list, key) == Some(list[i].1),
        i == list.len() ==> numbered(list, key) is None,
{
    if i == list.len() {
        lemma_numbered_none(list, key);
    } else if list[i].0 == key {
        lemma_numbered_at(list, key, i);
    }
}

/// Handles of meshes and of materials by chunk. A mesh that is placed both
/// mirrored and not has two materials.
#[verifier::reject_recursive_types(M)]
#[verifier::reject_recursive_types(T)]
pub struct MmbHandleCache<M, T> {
    pub mesh: AssetMap<Vec<(usize, M)>>,
    pub material: AssetMap<Vec<((usize, bool), T)>>,
}

impl<M, T> Default for MmbHandleCache<M, T> {
    fn default() -> (c: MmbHandleCache<M, T>)
        ensures
            forall|f: u32, i: usize, s: usize| c.mesh_at(f, i, s) is None,
            forall|f: u32, i: usize, s: usize, m: bool| c.material_at(f, i, s, m) is None,
    {
        MmbHandleCache { mesh: AssetMap::new(), material: AssetMap::new() }
    }
}

impl<M, T> MmbHandleCache<M, T> {
    /// The handle of a mesh.
    pub open spec fn mesh_at(&self, file_id: u32, chunk_idx: usize, sub_index: usize) -> Option<M> {
        if self.mesh@.contains_key((file_id, chunk_idx)) {
            numbered(self.mesh@[(file_id, chunk_idx)]@, sub_index)
        } else {
            None
        }
    }

    /// The handle of a material.
    pub open spec fn material_at(
        &self,
        file_id: u32,
        chunk_idx: usize,
        sub_index: usize,
        mirrored: bool,
    ) -> Option<T> {
        if self.material@.contains_key((file_id, chunk_idx)) {
            numbered(self.material@[(file_id, chunk_idx)]@, (sub_index, mirrored))
        } else {
            None
        }
    }

    /// The handle of a mesh, where there is one.
    pub fn mesh_handle(&self, file_id: u32, chunk_idx: usize, sub_index: usize) -> (r: Option<&M>)
        ensures
            match r {
                Some(h) => self.mesh_at(file_id, chunk_idx, sub_index) == Some(*h),
                None => self.mesh_at(file_id, chunk_idx, sub_index) is None,
            },
    {
        let list = match self.mesh.get(file_id, chunk_idx) {
            Some(list) => list,
            None => {
                return None;
            },
        };
        let mut i: usize = 0;
        while i < list.len()
            invariant
                i <= list.len(),
                self.mesh@.contains_key((file_id, chunk_idx)),
                *list == self.mesh@[(file_id, chunk_idx)],
                forall|j: int| 0 <= j < i ==> (#[trigger] list@[j]).0 != sub_index,
            decreases list.len() - i,
        {
            if list[i].0 == sub_index {
                proof {
                    lemma_numbered_at(list@, sub_index, i as int);
                }
                return Some(&list[i].1);
            }
            i = i + 1;
        }
        proof {
            lemma_numbered_none(list@, sub_index);
        }
        None
    }

    /// The handle of a material, where there is one.
    pub fn material_handle(
        &self,
        file_id: u32,
        chunk_idx: usize,
        sub_index: usize,
        mirrored: bool,
    ) -> (r: Option<&T>)
        ensures
            match r {
                Some(h) => self.material_at(file_id, chunk_idx, sub_index, mirrored) == Some(*h),
                None => self.material_at(file_id, chunk_idx, sub_index, mirrored) is None,
            },
    {
        let list = match self.material.get(file_id, chunk_idx) {
            Some(list) => list,
            None => {
                return None;
            },
        };
        let mut i: usize = 0;
        while i < list.len()
            invariant
                i <= list.len(),
                self.material@.contains_key((file_id, chunk_idx)),
                *list == self.material@[(file_id, chunk_idx)],
                forall|j: int| 0 <= j < i ==> (#[trigger] list@[j]).0 != (sub_index, mirrored),
            decreases list.len() - i,
        {
            if list[i].0.0 == sub_index && list[i].0.1 == mirrored {
                proof {
                    lemma_numbered_at(list@, (sub_index, mirrored), i as int);
                }
                return Some(&list[i].1);
            }
            assert(list@[i as int].0 != (sub_index, mirrored));
            i = i + 1;
        }
        proof {
            lemma_numbered_none(list@, (sub_index, mirrored));
        }
        None
    }

    /// Keeps the handle of a mesh. One that is there stays.
    pub fn keep_mesh(&mut self, file_id: u32, chunk_idx: usize, sub_index: usize, handle: M)
        ensures
            final(self).material@ == old(self).material@,
            forall|f: u32, i: usize, s: usize| #[trigger]
                final(self).mesh_at(f, i, s) == (if f == file_id && i == chunk_idx && s == sub_index
                    && old(self).mesh_at(f, i, s) is None {
                    Some(handle)
                } else {
                    old(self).mesh_at(f, i, s)
                }),
    {
        if self.mesh_handle(file_id, chunk_idx, sub_index).is_some() {
            return;
        }
        let mut list = match self.mesh.remove(file_id, chunk_idx) {
            Some(list) => list,
            None => Vec::new(),
        };
        let ghost before = list@;
        list.push((sub_index, handle));
        self.mesh.insert(file_id, chunk_idx, list);
        proof {
            assert forall|f: u32, i: usize, s: usize| #[trigger]
                self.mesh_at(f, i, s) == (if f == file_id && i == chunk_idx && s == sub_index
                    && old(self).mesh_at(f, i, s) is None {
                    Some(handle)
                } else {
                    old(self).mesh_at(f, i, s)
                }) by {
                lemma_numbered_push(before, sub_index, handle, s);
            }
        }
    }

    /// Keeps the handle of a material. One that is there stays.
    pub fn keep_material(
        &mut self,
        file_id: u32,
        chunk_idx: usize,
        sub_index: usize,
        mirrored: bool,
        handle: T,
    )
        ensures
            final(self).mesh@ == old(self).mesh@,
            forall|f: u32, i: usize, s: usize, m: bool| #[trigger]
                final(self).material_at(f, i, s, m) == (if f == file_id && i == chunk_idx && s
                    == sub_index && m == mirrored && old(self).material_at(f, i, s, m) is None {
                    Some(handle)
                } else {
                    old(self).material_at(f, i, s, m)
                }),
    {
        if self.material_handle(file_id, chunk_idx, sub_index, mirrored).is_some() {
            return;
        }
        let mut list = match self.material.remove(file_id, chunk_idx) {
            Some(list) => list,
            None => Vec::new(),
        };
        let ghost before = list@;
        list.push(((sub_index, mirrored), handle));
        self.material.insert(file_id, chunk_idx, list);
        proof {
            assert forall|f: u32, i: usize, s: usize, m: bool| #[trigger]
                self.material_at(f, i, s, m) == (if f == file_id && i == chunk_idx && s == sub_index
                    && m == mirrored && old(self).material_at(f, i, s, m) is None {
                    Some(handle)
                } else {
                    old(self).material_at(f, i, s, m)
                }) by {
                lemma_numbered_push(before, (sub_index, mirrored), handle, (s, m));
            }
        }
    }

    /// Drops the handles of a chunk, of meshes and of materials.
    pub fn drop_chunk(&mut self, file_id: u32, chunk_idx: usize)
        ensures
            final(self).mesh@ == old(self).mesh@.remove((file_id, chunk_idx)),
            final(self).material@ == old(self).material@.remove((file_id, chunk_idx)),
    {
        let _ = self.mesh.remove(file_id, chunk_idx);
        let _ = self.material.remove(file_id, chunk_idx);
    }
}

/// After a chunk is dropped no handle of it is left, and those of all other
/// chunks are.
pub proof fn dropped_chunk_has_no_handles<M, T>(
    before: MmbHandleCache<M, T>,
    after: MmbHandleCache<M, T>,
    file_id: u32,
    chunk_idx: usize,
)
    requires
        after.mesh@ == before.mesh@.remove((file_id, chunk_idx)),
        after.material@ == before.material@.remove((file_id, chunk_idx)),
    ensures
        forall|f: u32, i: usize, s: usize| #[trigger]
            after.mesh_at(f, i, s) == (if f == file_id && i == chunk_idx {
                None
            } else {
                before.mesh_at(f, i, s)
            }),
        forall|f: u32, i: usize, s: usize, m: bool| #[trigger]
            after.material_at(f, i, s, m) == (if f == file_id && i == chunk_idx {
                None
            } else {
                before.material_at(f, i, s, m)
            }),
{
}

/// The place of each named texture: of those that share a name, the last.
pub open spec fn named_places(textures: Seq<TextureData>) -> Map<Seq<char>, int>
    decreases textures.len(),
{
    if textures.len() == 0 {
        Map::empty()
    } else {
        let before = named_places(textures.drop_last());
        if textures.last().name.len() > 0 {
            before.insert(textures.last().name, textures.len() - 1)
        } else {
            before
        }
    }
}

/// A name stands for the last texture under it. Every name that is not empty stands
/// for one, and nothing else does.
pub proof fn the_last_of_a_name_counts(textures: Seq<TextureData>, name: Seq<char>, i: int)
    requires
        0 <= i < textures.len(),
        textures[i].name == name,
        forall|j: int| i < j < textures.len() ==> (#[trigger] textures[j]).name != name,
    ensures
        name.len() > 0 ==> named_places(textures).contains_key(name) && named_places(textures)[name]
            == i,
        name.len() == 0 ==> !named_places(textures).contains_key(name),
    decreases textures.len(),
{
    let shorter = textures.drop_last();
    if name.len() == 0 {
        lemma_unnamed(textures, name);
    } else if i < textures.len() - 1 {
        assert(shorter[i] == textures[i]);
        assert forall|j: int| i < j < shorter.len() implies (#[trigger] shorter[j]).name != name by {
            assert(shorter[j] == textures[j]);
        }
        the_last_of_a_name_counts(shorter, name, i);
        assert(textures[textures.len() - 1].name != name);
    }
}

proof fn lemma_unnamed(textures: Seq<TextureData>, name: Seq<char>)
    requires
        name.len() == 0,
    ensures
        !named_places(textures).contains_key(name),
    decreases textures.len(),
{
    if textures.len() > 0 {
        lemma_unnamed(textures.drop_last(), name);
    }
}

/// What a name stands for is a texture under that name, which no later one shares.
pub proof fn names_stand_for_their_textures(textures: Seq<TextureData>, name: Seq<char>)
    requires
        named_places(textures).contains_key(name),
    ensures
        name.len() > 0,
        0 <= named_places(textures)[name] < textures.len(),
        textures[named_places(textures)[name]].name == name,
        forall|j: int|
            named_places(textures)[name] < j < textures.len() ==> (#[trigger] textures[j]).name
                != name,
    decreases textures.len(),
{
    let shorter = textures.drop_last();
    if textures.last().name.len() > 0 && textures.last().name == name {
    } else {
        names_stand_for_their_textures(shorter, name);
        let i = named_places(shorter)[name];
        assert(shorter[i] == textures[i]);
        assert forall|j: int| i < j < textures.len() implies (#[trigger] textures[j]).name != name by {
            if j < shorter.len() {
                assert(shorter[j] == textures[j]);
            }
        }
    }
}

/// The texture that a name stands for: the one under it, or else the first.
pub open spec fn chosen_place(places: Map<Seq<char>, int>, count: nat, name: Seq<char>) -> Option<
    int,
> {
    if places.contains_key(name) {
        Some(places[name])
    } else if count > 0 {
        Some(0)
    } else {
        None
    }
}

/// The textures of a file as they were uploaded, and the places of the named
/// ones. A texture that no name stands for is given up, but for the first.
pub struct TexturePool<H> {
    pub handles: Vec<Option<H>>,
    pub by_name: Vec<(String, usize)>,
}

/// A name stands for the texture at a place, or it is the first.
pub open spec fn in_use(places: Map<Seq<char>, int>, i: int) -> bool {
    i == 0 || exists|name: Seq<char>| #[trigger] places.contains_key(name) && places[name] == i
}

/// Of the textures of a file those are held that a name stands for, and the first:
/// a texture with a name that no later one shares.
pub proof fn the_last_of_each_name_is_held(textures: Seq<TextureData>, i: int)
    requires
        0 <= i < textures.len(),
    ensures
        in_use(named_places(textures), i) <==> i == 0 || (textures[i].name.len() > 0 && forall|
            j: int,
        |
            i < j < textures.len() ==> (#[trigger] textures[j]).name != textures[i].name),
{
    let places = named_places(textures);
    if i > 0 && in_use(places, i) {
        let name = choose|name: Seq<char>| #[trigger] places.contains_key(name) && places[name] == i;
        names_stand_for_their_textures(textures, name);
    }
    if textures[i].name.len() > 0 && forall|j: int|
        i < j < textures.len() ==> (#[trigger] textures[j]).name != textures[i].name {
        the_last_of_a_name_counts(textures, textures[i].name, i);
    }
}

/// A mesh is drawn with the last texture under its name. Where there is none it is
/// drawn with the first, and without textures with none.
pub proof fn meshes_take_the_texture_of_their_name(
    textures: Seq<TextureData>,
    name: Seq<char>,
    i: int,
)
    requires
        0 <= i < textures.len(),
    ensures
        name.len() > 0 && textures[i].name == name && (forall|j: int|
            i < j < textures.len() ==> (#[trigger] textures[j]).name != name) ==> chosen_place(
            named_places(textures),
            textures.len(),
            name,
        ) == Some(i),
        (name.len() == 0 || forall|j: int|
            0 <= j < textures.len() ==> (#[trigger] textures[j]).name != name) ==> chosen_place(
            named_places(textures),
            textures.len(),
            name,
        ) == Some(0int),
        chosen_place(named_places(Seq::empty()), 0, name) is None,
{
    if name.len() > 0 && textures[i].name == name && (forall|j: int|
        i < j < textures.len() ==> (#[trigger] textures[j]).name != name) {
        the_last_of_a_name_counts(textures, name, i);
    }
    if named_places(textures).contains_key(name) {
        names_stand_for_their_textures(textures, name);
    }
}

impl<H> TexturePool<H> {
    /// Every name occurs once, and stands for a texture that is held. So is the
    /// first.
    pub open spec fn wf(&self) -> bool {
        &&& forall|i: int, j: int|
            0 <= i < j < self.by_name@.len() ==> (#[trigger] self.by_name@[i]).0@ != (
            #[trigger] self.by_name@[j]).0@
        &&& forall|i: int|
            0 <= i < self.by_name@.len() ==> (#[trigger] self.by_name@[i]).1 < self.handles@.len()
                && self.handles@[self.by_name@[i].1 as int] is Some
        &&& self.handles@.len() > 0 ==> self.handles@[0] is Some
    }

    /// The places of the named textures.
    pub open spec fn places(&self) -> Map<Seq<char>, int> {
        Map::new(
            |name: Seq<char>|
                exists|i: int| 0 <= i < self.by_name@.len() && (#[trigger] self.by_name@[i]).0@ == name,
            |name: Seq<char>|
                self.by_name@[choose|i: int|
                    0 <= i < self.by_name@.len() && (#[trigger] self.by_name@[i]).0@ == name].1 as int,
        )
    }

    proof fn lemma_place(&self, i: int)
        requires
            self.wf(),
            0 <= i < self.by_name@.len(),
        ensures
            self.places().contains_key(self.by_name@[i].0@),
            self.places()[self.by_name@[i].0@] == self.by_name@[i].1,
    {
        let name = self.by_name@[i].0@;
        let k = choose|k: int|
            0 <= k < self.by_name@.len() && (#[trigger] self.by_name@[k]).0@ == name;
        assert(0 <= k < self.by_name@.len() && self.by_name@[k].0@ == name);
        if k < i {
            assert(self.by_name@[k].0@ != self.by_name@[i].0@);
        } else if i < k {
            assert(self.by_name@[i].0@ != self.by_name@[k].0@);
        }
    }

    fn find(&self, name: &str) -> (r: Option<usize>)
        requires
            self.wf(),
        ensures
            match r {
                Some(i) => i < self.by_name@.len() && self.by_name@[i as int].0@ == name@,
                None => !self.places().contains_key(name@),
            },
    {
        let mut i: usize = 0;
        while i < self.by_name.len()
            invariant
                i <= self.by_name.len(),
                forall|j: int| 0 <= j < i ==> (#[trigger] self.by_name@[j]).0@ != name@,
            decreases self.by_name.len() - i,
        {
            if same_text(self.by_name[i].0.as_str(), name) {
                return Some(i);
            }
            i = i + 1;
        }
        None
    }

    /// The pool of a set of textures, from the handle of each.
    pub fn build(textures: &Vec<NamedTexture>, handles: Vec<H>) -> (pool: TexturePool<H>)
        requires
            handles@.len() == textures@.len(),
        ensures
            pool.wf(),
            pool.handles@.len() == handles@.len(),
            forall|i: int|
                0 <= i < handles@.len() ==> #[trigger] pool.handles@[i] == (if in_use(
                    pool.places(),
                    i,
                ) {
                    Some(handles@[i])
                } else {
                    None
                }),
            pool.places() == named_places(texture_data(textures@)),
    {
        let ghost data = texture_data(textures@);
        let ghost given = handles@;
        let mut held: Vec<Option<H>> = Vec::new();
        for h in it: handles
            invariant
                it.seq() == given,
                held@ =~= given.take(it.index() as int).map_values(|h: H| Some(h)),
        {
            held.push(Some(h));
        }
        assert(given.take(given.len() as int) =~= given);
        let ghost all = held@;
        let mut pool = TexturePool { handles: held, by_name: Vec::new() };
        let mut i: usize = 0;
        assert(pool.places() =~= named_places(data.take(0)));
        while i < textures.len()
            invariant
                i <= textures.len(),
                data == texture_data(textures@),
                pool.wf(),
                pool.handles@ == all,
                all =~= given.map_values(|h: H| Some(h)),
                all.len() == textures@.len(),
                pool.places() == named_places(data.take(i as int)),
            decreases textures.len() - i,
        {
            let ghost before = pool;
            proof {
                assert(data.take(i as int + 1).drop_last() =~= data.take(i as int));
                assert(data.take(i as int + 1).last() == textures@[i as int]@);
            }
            let name = textures[i].name.clone();
            if !name.as_str().is_empty() {
                let ghost shown = name@;
                match pool.find(name.as_str()) {
                    Some(k) => {
                        pool.by_name[k] = (name, i);
                        proof {
                            assert forall|a: int, b: int|
                                0 <= a < b < pool.by_name@.len() implies (
                            #[trigger] pool.by_name@[a]).0@ != (#[trigger] pool.by_name@[b]).0@ by {
                                assert(before.by_name@[a].0@ != before.by_name@[b].0@);
                            }
                            assert forall|n: Seq<char>|
                                pool.places().contains_key(n) == before.places().insert(
                                    shown,
                                    i as int,
                                ).contains_key(n) by {
                                if before.places().contains_key(n) {
                                    let j = choose|j: int|
                                        0 <= j < before.by_name@.len() && (
                                        #[trigger] before.by_name@[j]).0@ == n;
                                    assert(pool.by_name@[j].0@ == n);
                                }
                                if pool.places().contains_key(n) {
                                    let j = choose|j: int|
                                        0 <= j < pool.by_name@.len() && (
                                        #[trigger] pool.by_name@[j]).0@ == n;
                                    assert(before.by_name@[j].0@ == n);
                                }
                                assert(pool.by_name@[k as int].0@ == shown);
                            }
                            assert forall|n: Seq<char>| #[trigger]
                                pool.places().contains_key(n) implies pool.places()[n]
                                == before.places().insert(shown, i as int)[n] by {
                                let j = choose|j: int|
                                    0 <= j < pool.by_name@.len() && (#[trigger] pool.by_name@[j]).0@
                                        == n;
                                pool.lemma_place(j);
                                before.lemma_place(j);
                                if n == shown {
                                    pool.lemma_place(k as int);
                                }
                            }
                            assert(pool.places() =~= before.places().insert(shown, i as int));
                        }
                    },
                    None => {
                        pool.by_name.push((name, i));
                        proof {
                            let last = before.by_name@.len() as int;
                            assert forall|a: int, b: int|
                                0 <= a < b < pool.by_name@.len() implies (
                            #[trigger] pool.by_name@[a]).0@ != (#[trigger] pool.by_name@[b]).0@ by {
                                if b < last {
                                    assert(before.by_name@[a].0@ != before.by_name@[b].0@);
                                } else {
                                    assert(before.by_name@[a].0@ != shown);
                                }
                            }
                            assert forall|n: Seq<char>|
                                pool.places().contains_key(n) == before.places().insert(
                                    shown,
                                    i as int,
                                ).contains_key(n) by {
                                if before.places().contains_key(n) {
                                    let j = choose|j: int|
                                        0 <= j < before.by_name@.len() && (
                                        #[trigger] before.by_name@[j]).0@ == n;
                                    assert(pool.by_name@[j].0@ == n);
                                }
                                if pool.places().contains_key(n) {
                                    let j = choose|j: int|
                                        0 <= j < pool.by_name@.len() && (
                                        #[trigger] pool.by_name@[j]).0@ == n;
                                    if j < last {
                                        assert(before.by_name@[j].0@ == n);
                                    }
                                }
                                assert(pool.by_name@[last].0@ == shown);
                            }
                            assert forall|n: Seq<char>| #[trigger]
                                pool.places().contains_key(n) implies pool.places()[n]
                                == before.places().insert(shown, i as int)[n] by {
                                let j = choose|j: int|
                                    0 <= j < pool.by_name@.len() && (#[trigger] pool.by_name@[j]).0@
                                        == n;
                                pool.lemma_place(j);
                                if j < last {
                                    before.lemma_place(j);
                                }
                            }
                            assert(pool.places() =~= before.places().insert(shown, i as int));
                        }
                    },
                }
            }
            i = i + 1;
        }
        assert(data.take(data.len() as int) =~= data);
        let ghost places = pool.places();
        let total: usize = pool.handles.len();
        let mut j: usize = 1;
        while j < total
            invariant
                1 <= j,
                total == given.len(),
                pool.handles@.len() == total,
                pool.wf(),
                pool.places() == places,
                forall|k: int|
                    0 <= k < j && k < total ==> #[trigger] pool.handles@[k] == (if in_use(
                        places,
                        k,
                    ) {
                        Some(given[k])
                    } else {
                        None
                    }),
                forall|k: int| j <= k < total ==> #[trigger] pool.handles@[k] == Some(given[k]),
            decreases total - j,
        {
            if !pool.names_place(j) {
                let ghost before = pool;
                pool.handles[j] = None;
                proof {
                    assert(pool.places() =~= before.places());
                    assert forall|i: int| 0 <= i < pool.by_name@.len() implies (
                    #[trigger] pool.by_name@[i]).1 < pool.handles@.len()
                        && pool.handles@[pool.by_name@[i].1 as int] is Some by {
                        before.lemma_place(i);
                        assert(before.by_name@[i].1 != j);
                    }
                }
            }
            j = j + 1;
        }
        pool
    }

    /// Whether a name stands for the texture at a place.
    fn names_place(&self, place: usize) -> (b: bool)
        requires
            self.wf(),
            place > 0,
        ensures
            b == in_use(self.places(), place as int),
    {
        let mut i: usize = 0;
        while i < self.by_name.len()
            invariant
                i <= self.by_name.len(),
                self.wf(),
                place > 0,
                forall|j: int| 0 <= j < i ==> (#[trigger] self.by_name@[j]).1 != place,
            decreases self.by_name.len() - i,
        {
            if self.by_name[i].1 == place {
                proof {
                    self.lemma_place(i as int);
                }
                return true;
            }
            i = i + 1;
        }
        proof {
            assert forall|name: Seq<char>| #[trigger] self.places().contains_key(
                name,
            ) implies self.places()[name] != place by {
                let k = choose|k: int|
                    0 <= k < self.by_name@.len() && (#[trigger] self.by_name@[k]).0@ == name;
                self.lemma_place(k);
            }
        }
        false
    }

    /// The handle that a name stands for: that of the texture under the name,
    /// or else of the first one.
    pub fn texture_for(&self, name: &str) -> (r: Option<&H>)
        requires
            self.wf(),
        ensures
            match r {
                Some(h) => chosen_place(self.places(), self.handles@.len(), name@) is Some && Some(
                    *h,
                ) == self.handles@[chosen_place(self.places(), self.handles@.len(), name@)->0],
                None => chosen_place(self.places(), self.handles@.len(), name@) is None,
            },
    {
        match self.find(name) {
            Some(i) => {
                proof {
                    self.lemma_place(i as int);
                }
                self.handles[self.by_name[i].1].as_ref()
            },
            None => {
                if self.handles.len() > 0 {
                    self.handles[0].as_ref()
                } else {
                    None
                }
            },
        }
    }

    /// How many names there are.
    pub fn named_count(&self) -> (n: usize)
        requires
            self.wf(),
        ensures
            self.places().dom().finite(),
            n == self.places().dom().len(),
    {
        proof {
            let names = self.by_name@.map_values(|e: (String, usize)| e.0@);
            assert(names.no_duplicates()) by {
                assert forall|i: int, j: int|
                    0 <= i < names.len() && 0 <= j < names.len() && i != j implies names[i]
                    != names[j] by {
                    assert(names[i] == self.by_name@[i].0@);
                    assert(names[j] == self.by_name@[j].0@);
                }
            }
            names.unique_seq_to_set();
            assert(self.places().dom() =~= names.to_set()) by {
                assert forall|n: Seq<char>|
                    self.places().contains_key(n) == names.to_set().contains(n) by {
                    if self.places().contains_key(n) {
                        let j = choose|j: int|
                            0 <= j < self.by_name@.len() && (#[trigger] self.by_name@[j]).0@ == n;
                        assert(names[j] == n);
                    }
                    if names.to_set().contains(n) {
                        let j = choose|j: int| 0 <= j < names.len() && names[j] == n;
                        assert(self.by_name@[j].0@ == n);
                    }
                }
            }
        }
        self.by_name.len()
    }
}

/// The pools of textures by file.
#[verifier::reject_recursive_types(H)]
pub struct MmbTexPools<H> {
    pub by_file: HashMap<u32, TexturePool<H>>,
}

impl<H> Default for MmbTexPools<H> {
    fn default() -> (p: MmbTexPools<H>)
        ensures
            p.wf(),
            p.by_file@ == Map::<u32, TexturePool<H>>::empty(),
    {
        MmbTexPools { by_file: HashMap::new() }
    }
}

impl<H> MmbTexPools<H> {
    /// Every pool is well formed.
    pub open spec fn wf(&self) -> bool {
        forall|f: u32| #[trigger] self.by_file@.contains_key(f) ==> self.by_file@[f].wf()
    }

    pub fn contains(&self, file_id: u32) -> (b: bool)
        ensures
            b == self.by_file@.contains_key(file_id),
    {
        self.by_file.contains_key(&file_id)
    }

    pub fn get(&self, file_id: u32) -> (r: Option<&TexturePool<H>>)
        ensures
            match r {
                Some(p) => self.by_file@.contains_key(file_id) && *p == self.by_file@[file_id],
                None => !self.by_file@.contains_key(file_id),
            },
    {
        self.by_file.get(&file_id)
    }

    /// Takes in the pool of a file, from its textures and the handle of each.
    /// A pool that is there stays.
    pub fn build_texture_pool(&mut self, file_id: u32, textures: &Vec<NamedTexture>, handles: Vec<H>)
        requires
            old(self).wf(),
            handles@.len() == textures@.len(),
        ensures
            final(self).wf(),
            final(self).by_file@.dom() == old(self).by_file@.dom().insert(file_id),
            forall|f: u32| #[trigger]
                old(self).by_file@.contains_key(f) ==> final(self).by_file@[f] == old(
                    self,
                ).by_file@[f],
            !old(self).by_file@.contains_key(file_id) ==> {
                &&& final(self).by_file@[file_id].handles@.len() == handles@.len()
                &&& forall|i: int|
                    0 <= i < handles@.len() ==> #[trigger] final(self).by_file@[file_id].handles@[i]
                        == (if in_use(final(self).by_file@[file_id].places(), i) {
                        Some(handles@[i])
                    } else {
                        None
                    })
                &&& final(self).by_file@[file_id].places() == named_places(
                    texture_data(textures@),
                )
            },
    {
        if !self.by_file.contains_key(&file_id) {
            let pool = TexturePool::build(textures, handles);
            self.by_file.insert(file_id, pool);
        }
        assert(self.by_file@.dom() =~= old(self).by_file@.dom().insert(file_id));
    }

    /// Drops the pool of a file.
    pub fn drop_file(&mut self, file_id: u32)
        ensures
            final(self).by_file@ == old(self).by_file@.remove(file_id),
            old(self).wf() ==> final(self).wf(),
    {
        self.by_file.remove(&file_id);
    }
}

/// The anisotropy that pooled textures are sampled with.
#[derive(Clone, Copy, PartialEq, Eq, Debug, Structural)]
pub struct AppliedTextureFiltering {
    pub anisotropy: Option<u16>,
}

impl Default for AppliedTextureFiltering {
    fn default() -> (a: AppliedTextureFiltering)
        ensures
            a.anisotropy is None,
    {
        AppliedTextureFiltering { anisotropy: None }
    }
}

impl AppliedTextureFiltering {
    /// Takes in the setting, and says whether the textures have to be sampled
    /// anew: not where the setting is the one that applies.
    pub fn apply(&mut self, anisotropy: u16) -> (resample: bool)
        ensures
            resample == (old(self).anisotropy != Some(anisotropy)),
            final(self).anisotropy == Some(anisotropy),
    {
        let same = match self.anisotropy {
            Some(a) => a == anisotropy,
            None => false,
        };
        self.anisotropy = Some(anisotropy);
        !same
    }
}

} // verus!
