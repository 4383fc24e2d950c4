//! GPU copies of managed textures, by texture id.
use crate::canvas::{Canvas, Command};
use crate::texture::SpriteTexture;
use std::collections::HashMap;
use vstd::prelude::*;

verus! {

broadcast use vstd::std_specs::hash::group_hash_axioms;

/// Holds the GPU texture made for each managed texture that was drawn.
pub struct Cache {
    textures: HashMap<u64, wgpu::Texture>,
}

/// The managed texture's id, for a texture that the library manages.
pub open spec fn managed_id(t: SpriteTexture) -> Option<u64> {
    match t {
        SpriteTexture::Managed { id, .. } => Some(id),
        SpriteTexture::Unmanaged { .. } => None,
    }
}

impl Cache {
    /// The GPU texture of each id.
    pub closed spec fn textures_spec(&self) -> Map<u64, wgpu::Texture> {
        self.textures@
    }

    /// An empty cache. Make a new one whenever the GPU state is made anew.
    pub fn new() -> (c: Cache)
        ensures
            c.textures_spec().is_empty(),
    {
        let c = Cache { textures: HashMap::new() };
        assert(c.textures_spec() =~= Map::empty());
        c
    }

    pub fn contains(&self, id: u64) -> (r: bool)
        ensures
            r == self.textures_spec().contains_key(id),
    {
        self.textures.contains_key(&id)
    }

    /// Keeps `texture` for `id`, unless `id` has one already.
    pub fn insert_if_not_exists(&mut self, id: u64, texture: wgpu::Texture)
        ensures
            old(self).textures_spec().contains_key(id) ==> final(self).textures_spec() == old(
                self,
            ).textures_spec(),
            !old(self).textures_spec().contains_key(id) ==> final(self).textures_spec() == old(
                self,
            ).textures_spec().insert(id, texture),
    {
        if !self.textures.contains_key(&id) {
            self.textures.insert(id, texture);
        }
    }

    pub fn get(&self, id: u64) -> (r: Option<&wgpu::Texture>)
        ensures
            match r {
                Some(t) => self.textures_spec().contains_key(id) && *t == self.textures_spec()[id],
                None => !self.textures_spec().contains_key(id),
            },
    {
        self.textures.get(&id)
    }

    /// Forgets every GPU texture.
    pub fn clear(&mut self)
        ensures
            final(self).textures_spec().is_empty(),
    {
        self.textures = HashMap::new();
        assert(self.textures_spec() =~= Map::empty());
    }
}

/// The id of the managed texture that command `c` samples, if any.
pub open spec fn command_texture_id<'a, T>(c: Command<'a, T>) -> Option<u64> {
    match c {
        Command::Sprite(s) => managed_id(*s.texture_slice.texture_spec()),
        Command::Text(_) => None,
    }
}

/// The managed textures that the sprites of `canvas` sample and `cache`
/// has no GPU copy of, each once, in the order they are first drawn.
pub fn textures_to_upload<'a, T>(cache: &Cache, canvas: &Canvas<'a, T>) -> (r: Vec<
    &'a SpriteTexture,
>)
    ensures
        forall|j: int|
            0 <= j < r@.len() ==> ((#[trigger] managed_id(*r@[j])) matches Some(id)
                && !cache.textures_spec().contains_key(id)),
        forall|j: int, k: int|
            0 <= j < k < r@.len() ==> #[trigger] managed_id(*r@[j]) != #[trigger] managed_id(*r@[k]),
        forall|i: int|
            0 <= i < canvas.commands_spec().len() ==> ((#[trigger] command_texture_id(
                canvas.commands_spec()[i],
            )) matches Some(id) ==> (cache.textures_spec().contains_key(id) || exists|j: int|
                0 <= j < r@.len() && managed_id(*r@[j]) == Some(id))),
{
    let commands = canvas.commands();
    let mut out: Vec<&'a SpriteTexture> = Vec::new();
    let mut ids: Vec<u64> = Vec::new();
    let mut i: usize = 0;
    while i < commands.len()
        invariant
            commands@ == canvas.commands_spec(),
            0 <= i <= commands.len(),
            ids@.len() == out@.len(),
            forall|j: int| 0 <= j < out@.len() ==> #[trigger] managed_id(*out@[j]) == Some(ids@[j]),
            forall|j: int| 0 <= j < ids@.len() ==> !cache.textures_spec().contains_key(#[trigger] ids@[j]),
            forall|j: int, k: int| 0 <= j < k < ids@.len() ==> #[trigger] ids@[j] != #[trigger] ids@[k],
            forall|c: int|
                0 <= c < i ==> ((#[trigger] command_texture_id(commands@[c])) matches Some(id) ==> (
                cache.textures_spec().contains_key(id) || exists|j: int|
                    0 <= j < ids@.len() && ids@[j] == id)),
        decreases commands.len() - i,
    {
        if let Command::Sprite(s) = &commands[i] {
            let t = s.texture_slice.texture();
            if let SpriteTexture::Managed { id, .. } = t {
                let id = *id;
                if !cache.contains(id) {
                    let mut seen = false;
                    let mut k: usize = 0;
                    while k < ids.len()
                        invariant
                            0 <= k <= ids.len(),
                            seen == exists|j: int| 0 <= j < k && ids@[j] == id,
                        decreases ids.len() - k,
                    {
                        if ids[k] == id {
                            seen = true;
                        }
                        k += 1;
                    }
                    if !seen {
                        let ghost before = ids@;
                        ids.push(id);
                        out.push(t);
                        proof {
                            assert(ids@[before.len() as int] == id);
                            assert forall|c: int|
                                0 <= c < i implies ((#[trigger] command_texture_id(commands@[c])) matches Some(x) ==> (
                                cache.textures_spec().contains_key(x) || exists|j: int|
                                    0 <= j < ids@.len() && ids@[j] == x)) by {
                                if let Some(x) = command_texture_id(commands@[c]) {
                                    if !cache.textures_spec().contains_key(x) {
                                        let j = choose|j: int| 0 <= j < before.len() && before[j] == x;
                                        assert(ids@[j] == x);
                                    }
                                }
                            }
                        }
                    }
                }
            }
        }
        i += 1;
    }
    proof {
        assert forall|j: int, k: int| 0 <= j < k < out@.len() implies #[trigger] managed_id(*out@[j]) != #[trigger] managed_id(*out@[k]) by {
            assert(ids@[j] != ids@[k]);
        }
        assert forall|c: int| 0 <= c < commands@.len() implies ((#[trigger] command_texture_id(
            commands@[c],
        )) matches Some(id) ==> (cache.textures_spec().contains_key(id) || exists|j: int|
            0 <= j < out@.len() && managed_id(*out@[j]) == Some(id))) by {
            if let Some(id) = command_texture_id(commands@[c]) {
                if !cache.textures_spec().contains_key(id) {
                    let j = choose|j: int| 0 <= j < ids@.len() && ids@[j] == id;
                    assert(managed_id(*out@[j]) == Some(id));
                }
            }
        }
    }
    out
}

} // verus!
