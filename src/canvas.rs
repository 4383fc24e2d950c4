//! Recording draws: drawables, the canvas they are drawn onto, and scenes
//! whose nodes carry transforms of their own.
use crate::color::{Color, tint_spec, white_spec};
use crate::math::compose;
use crate::texture::TextureSlice;
use vstd::prelude::*;

verus! {

/// A slice of a texture to draw, where, and tinted how.
#[derive(Clone, Copy)]
pub struct Sprite<'a> {
    pub texture_slice: TextureSlice<'a>,
    pub transform: glam::Affine2,
    pub tint: Color,
}

/// A text to draw, where, and tinted how.
pub struct Section<T> {
    pub text: T,
    pub transform: glam::Affine2,
    pub tint: Color,
}

/// One recorded draw.
pub enum Command<'a, T> {
    Sprite(Sprite<'a>),
    Text(Section<T>),
}

impl<'a, T> Command<'a, T> {
    /// The same command with another transform.
    pub open spec fn with_transform(self, transform: glam::Affine2) -> Command<'a, T> {
        match self {
            Command::Sprite(s) => Command::Sprite(Sprite { transform, ..s }),
            Command::Text(t) => Command::Text(Section { transform, ..t }),
        }
    }

    pub open spec fn transform_spec(self) -> glam::Affine2 {
        match self {
            Command::Sprite(s) => s.transform,
            Command::Text(t) => t.transform,
        }
    }

    pub fn transform(&self) -> (r: glam::Affine2)
        ensures
            r == self.transform_spec(),
    {
        match self {
            Command::Sprite(s) => s.transform,
            Command::Text(t) => t.transform,
        }
    }

    fn retransform(self, transform: glam::Affine2) -> (c: Command<'a, T>)
        ensures
            c == self.with_transform(transform),
    {
        match self {
            Command::Sprite(s) => Command::Sprite(Sprite { transform, ..s }),
            Command::Text(t) => Command::Text(Section { transform, ..t }),
        }
    }
}

/// `a` is the command `b` with some transform in place of its own.
pub open spec fn same_draw<'a, T>(a: Command<'a, T>, b: Command<'a, T>) -> bool {
    exists|x: glam::Affine2| a == b.with_transform(x)
}

/// Something that can be drawn: a texture slice, a text, or either of them
/// under one or more tints.
pub enum Drawable<'a, T> {
    Slice(TextureSlice<'a>),
    Text(T),
    Tinted(Box<Drawable<'a, T>>, Color),
}

impl<'a, T> Drawable<'a, T> {
    /// The command that drawing this with `tint` and `transform` records:
    /// each tint wrapped around the item multiplies in, outermost first.
    pub open spec fn command_spec(self, tint: Color, transform: glam::Affine2) -> Command<'a, T>
        decreases self,
    {
        match self {
            Drawable::Slice(s) => Command::Sprite(Sprite { texture_slice: s, transform, tint }),
            Drawable::Text(t) => Command::Text(Section { text: t, transform, tint }),
            Drawable::Tinted(d, c) => (*d).command_spec(tint_spec(tint, c), transform),
        }
    }

    /// The same drawable under one more tint.
    pub fn tinted(self, tint: Color) -> (r: Drawable<'a, T>)
        ensures
            r matches Drawable::Tinted(d, c) && *d == self && c == tint,
    {
        Drawable::Tinted(Box::new(self), tint)
    }

    /// The command that drawing this records.
    pub fn into_command(self, tint: Color, transform: glam::Affine2) -> (c: Command<'a, T>)
        ensures
            c == self.command_spec(tint, transform),
        decreases self,
    {
        match self {
            Drawable::Slice(s) => Command::Sprite(Sprite { texture_slice: s, transform, tint }),
            Drawable::Text(t) => Command::Text(Section { text: t, transform, tint }),
            Drawable::Tinted(d, c) => (*d).into_command(tint.tint(c), transform),
        }
    }

    /// Records this drawable onto the canvas.
    pub fn draw(self, canvas: &mut Canvas<'a, T>, tint: Color, transform: glam::Affine2)
        ensures
            final(canvas).commands_spec() == old(canvas).commands_spec().push(
                self.command_spec(tint, transform),
            ),
    {
        canvas.commands.push(self.into_command(tint, transform));
    }
}

/// Tinting a drawable by `a` and then by `b` gives, on white, the same
/// command as tinting it by `b` and then by `a`: the product of the two.
pub proof fn lemma_tint_order<'a, T>(d: Drawable<'a, T>, a: Color, b: Color, transform: glam::Affine2)
    ensures
        Drawable::Tinted(Box::new(Drawable::Tinted(Box::new(d), a)), b).command_spec(
            white_spec(),
            transform,
        ) == Drawable::Tinted(Box::new(Drawable::Tinted(Box::new(d), b)), a).command_spec(
            white_spec(),
            transform,
        ),
        Drawable::Tinted(Box::new(Drawable::Tinted(Box::new(d), a)), b).command_spec(
            white_spec(),
            transform,
        ) == d.command_spec(tint_spec(a, b), transform),
{
    let w = white_spec();
    let da = Drawable::Tinted(Box::new(d), a);
    let db = Drawable::Tinted(Box::new(d), b);
    crate::color::lemma_tint_white(a);
    crate::color::lemma_tint_white(b);
    crate::color::lemma_tint_commutes(a, b);
    assert(Drawable::Tinted(Box::new(da), b).command_spec(w, transform) == da.command_spec(
        b,
        transform,
    ));
    assert(da.command_spec(b, transform) == d.command_spec(tint_spec(b, a), transform));
    assert(Drawable::Tinted(Box::new(db), a).command_spec(w, transform) == db.command_spec(
        a,
        transform,
    ));
    assert(db.command_spec(a, transform) == d.command_spec(tint_spec(a, b), transform));
}

/// Draws in the order they were made.
pub struct Canvas<'a, T> {
    commands: Vec<Command<'a, T>>,
}

impl<'a, T> Canvas<'a, T> {
    pub closed spec fn commands_spec(&self) -> Seq<Command<'a, T>> {
        self.commands@
    }

    pub fn new() -> (c: Self)
        ensures
            c.commands_spec().len() == 0,
    {
        Canvas { commands: Vec::new() }
    }

    /// Records a drawable with the given transform, starting from opaque
    /// white.
    pub fn draw(&mut self, drawable: Drawable<'a, T>, transform: glam::Affine2)
        ensures
            final(self).commands_spec() == old(self).commands_spec().push(
                drawable.command_spec(white_spec(), transform),
            ),
    {
        drawable.draw(self, Color::white(), transform);
    }

    /// The recorded draws, first to last.
    pub fn commands(&self) -> (r: &Vec<Command<'a, T>>)
        ensures
            r@ == self.commands_spec(),
    {
        &self.commands
    }
}

/// A tree of nodes, each with a transform relative to its parent, and the
/// draws recorded on them. Node 0 is the root.
///
/// A node's world transform applies its own transform first and then its
/// parent's, so a point goes from the node's space to its parent's and on
/// up to the root's.
pub struct Scene<'a, T> {
    parents: Vec<usize>,
    world: Vec<glam::Affine2>,
    draws: Vec<(usize, Command<'a, T>)>,
}

impl<'a, T> Scene<'a, T> {
    /// The parent of each node; the root is its own.
    pub closed spec fn parents_spec(&self) -> Seq<usize> {
        self.parents@
    }

    /// The recorded draws, first to last, each with its node.
    pub closed spec fn draws_spec(&self) -> Seq<(usize, Command<'a, T>)> {
        self.draws@
    }

    pub closed spec fn wf(&self) -> bool {
        &&& self.parents.len() == self.world.len()
        &&& self.parents.len() > 0
        &&& self.parents@[0] == 0
        &&& forall|i: int| 0 < i < self.parents.len() ==> #[trigger] self.parents@[i] < i
        &&& forall|i: int|
            0 <= i < self.draws.len() ==> (#[trigger] self.draws@[i]).0 < self.parents.len()
    }

    /// A scene of one root node with the given transform.
    pub fn new(transform: glam::Affine2) -> (s: Self)
        ensures
            s.wf(),
            s.parents_spec() == seq![0usize],
            s.draws_spec().len() == 0,
    {
        let mut parents: Vec<usize> = Vec::new();
        parents.push(0);
        let mut world: Vec<glam::Affine2> = Vec::new();
        world.push(transform);
        let s = Scene { parents, world, draws: Vec::new() };
        assert(s.parents_spec() =~= seq![0usize]);
        s
    }

    /// Adds a node under `parent` with a transform relative to it, and
    /// returns the new node.
    pub fn add_child(&mut self, parent: usize, transform: glam::Affine2) -> (node: usize)
        requires
            old(self).wf(),
            parent < old(self).parents_spec().len(),
            old(self).parents_spec().len() < usize::MAX,
        ensures
            final(self).wf(),
            node == old(self).parents_spec().len(),
            final(self).parents_spec() == old(self).parents_spec().push(parent),
            final(self).draws_spec() == old(self).draws_spec(),
    {
        let world = compose(&self.world[parent], &transform);
        let node = self.parents.len();
        self.parents.push(parent);
        self.world.push(world);
        proof {
            assert forall|i: int| 0 <= i < self.draws.len() implies (#[trigger] self.draws@[i]).0
                < self.parents.len() by {
                assert(old(self).draws@[i] == self.draws@[i]);
            }
        }
        node
    }

    /// Records a drawable on `node` with a transform relative to it.
    pub fn draw(&mut self, node: usize, drawable: Drawable<'a, T>, transform: glam::Affine2)
        requires
            old(self).wf(),
            node < old(self).parents_spec().len(),
        ensures
            final(self).wf(),
            final(self).parents_spec() == old(self).parents_spec(),
            final(self).draws_spec() == old(self).draws_spec().push(
                (node, drawable.command_spec(white_spec(), transform)),
            ),
    {
        self.draws.push((node, drawable.into_command(Color::white(), transform)));
    }

    /// The canvas of all draws in the order they were recorded, each with
    /// its node's world transform applied after its own.
    pub fn flatten(self) -> (c: Canvas<'a, T>)
        requires
            self.wf(),
        ensures
            c.commands_spec().len() == self.draws_spec().len(),
            forall|i: int|
                0 <= i < c.commands_spec().len() ==> same_draw(
                    #[trigger] c.commands_spec()[i],
                    self.draws_spec()[i].1,
                ),
    {
        let ghost orig = self.draws@;
        let n = self.draws.len();
        let world = self.world;
        let mut draws = self.draws;
        let mut reversed: Vec<(usize, Command<'a, T>)> = Vec::new();
        while draws.len() > 0
            invariant
                draws@.len() + reversed@.len() == n,
                n == orig.len(),
                draws@ == orig.subrange(0, draws@.len() as int),
                forall|j: int| 0 <= j < reversed@.len() ==> #[trigger] reversed@[j] == orig[n - 1 - j],
            decreases draws.len(),
        {
            let d = draws.pop().unwrap();
            reversed.push(d);
        }
        let mut commands: Vec<Command<'a, T>> = Vec::new();
        while reversed.len() > 0
            invariant
                commands@.len() + reversed@.len() == n,
                n == orig.len(),
                self.wf(),
                world@ == self.world@,
                orig == self.draws@,
                forall|j: int| 0 <= j < reversed@.len() ==> #[trigger] reversed@[j] == orig[n - 1 - j],
                forall|i: int|
                    0 <= i < commands@.len() ==> same_draw(#[trigger] commands@[i], orig[i].1),
            decreases reversed.len(),
        {
            let (node, cmd) = reversed.pop().unwrap();
            proof {
                assert(orig[n - 1 - reversed@.len()] == orig[commands@.len() as int]);
            }
            let x = compose(&world[node], &cmd.transform());
            let c = cmd.retransform(x);
            let ghost before = commands@;
            commands.push(c);
            proof {
                assert(same_draw(c, orig[before.len() as int].1));
                assert forall|i: int| 0 <= i < commands@.len() implies same_draw(
                    #[trigger] commands@[i],
                    orig[i].1,
                ) by {
                    if i < before.len() {
                        assert(commands@[i] == before[i]);
                    }
                }
            }
        }
        Canvas { commands }
    }
}

} // verus!
