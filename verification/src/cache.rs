//! Rendering variants from pictures that are kept from one variant to the next.

use vstd::prelude::*;

use crate::effort::Channel;
use crate::image::{
    channel_values, contrasted, gray_picture, is_resized, Picture, ResizeFilter,
    WasmImage,
};
use crate::plan::{Recipe, Terminal};
use crate::render::{
    apply_terminal, are_tables, can_enlarge, picture_of, standard_base, standard_scaled,
    variant_picture, ToneTables,
};

verus! {

/// What a kept picture was made from.
#[derive(Clone, Copy, Debug, PartialEq, Eq, Structural)]
pub enum Origin {
    /// The luma of the source as it is.
    Calibrated,
    /// A channel of the source with its contrast stretched.
    Standard { channel: Channel },
}

struct Kept {
    origin: Origin,
    scale: u32,
    image: WasmImage,
}

/// The enlarged pictures that variants of one source share. A channel that was
/// not enlarged is kept at scale 1.
pub struct RenderCache {
    kept: Vec<Kept>,
}

/// The picture among the first `n` that was kept last for an origin and a scale.
spec fn kept_picture(list: Seq<Kept>, origin: Origin, scale: u32, n: int) -> Option<Picture>
    decreases n,
{
    if n <= 0 {
        None
    } else if list[n - 1].origin == origin && list[n - 1].scale == scale {
        Some(list[n - 1].image@)
    } else {
        kept_picture(list, origin, scale, n - 1)
    }
}

proof fn lemma_kept(list: Seq<Kept>, next: Seq<Kept>, origin: Origin, scale: u32, n: int)
    requires
        0 <= n <= list.len() <= next.len(),
        forall|i: int| 0 <= i < list.len() ==> next[i] == list[i],
    ensures
        kept_picture(next, origin, scale, n) == kept_picture(list, origin, scale, n),
    decreases n,
{
    if n > 0 {
        lemma_kept(list, next, origin, scale, n - 1);
    }
}

/// A channel of a picture with its contrast stretched: what standard variants
/// start from.
pub open spec fn standard_picture(source: Picture, channel: Channel) -> Picture {
    contrasted(gray_picture(channel_values(source, channel), source.width, source.height))
}

/// Whether a standard variant can be rendered in a scale.
pub open spec fn can_start(base: Picture, scale: u32) -> bool {
    scale == 1 || can_enlarge(base, scale)
}

/// Whether `image` is `base` in a scale: itself in scale 1, else enlarged by a
/// Lanczos window.
pub open spec fn is_standard_enlargement(image: Picture, base: Picture, scale: u32) -> bool {
    &&& image.width == base.width * scale
    &&& image.height == base.height * scale
    &&& scale == 1 ==> image == base
    &&& scale != 1 ==> is_resized(image, base, ResizeFilter::Lanczos3)
}

/// Whether every standard picture that a cache keeps was made from `source`.
pub open spec fn is_cache_of(cache: RenderCache, source: Picture) -> bool {
    forall|channel: Channel, scale: u32|
        (#[trigger] cache.picture(Origin::Standard { channel }, scale)) matches Some(image)
            ==> can_start(standard_picture(source, channel), scale) && is_standard_enlargement(
            image,
            standard_picture(source, channel),
            scale,
        )
}

/// Whether one cache keeps all that another one does.
pub open spec fn extends(next: RenderCache, cache: RenderCache) -> bool {
    forall|origin: Origin, scale: u32|
        (#[trigger] cache.picture(origin, scale)) is Some ==> next.picture(origin, scale)
            == cache.picture(origin, scale)
}

/// Whether two caches keep the same calibrated pictures.
pub open spec fn calibrated_alike(next: RenderCache, cache: RenderCache) -> bool {
    forall|scale: u32|
        (#[trigger] next.picture(Origin::Calibrated, scale)) == cache.picture(
            Origin::Calibrated,
            scale,
        )
}

/// The enlarged picture that a cache keeps for a recipe.
pub open spec fn enlarged_for(cache: RenderCache, recipe: Recipe) -> Option<Picture> {
    match recipe {
        Recipe::Calibrated { scale, .. } => cache.picture(Origin::Calibrated, scale),
        Recipe::Standard { channel, scale, .. } => cache.picture(
            Origin::Standard { channel },
            scale,
        ),
        _ => None,
    }
}

/// What a recipe's picture is enlarged from.
pub open spec fn base_for(source: Picture, recipe: Recipe) -> Picture {
    match recipe {
        Recipe::Standard { channel, .. } => standard_picture(source, channel),
        _ => source,
    }
}

/// Whether a cache keeps what a standard recipe is rendered from, wherever the
/// picture can be enlarged so far.
pub open spec fn is_ready(cache: RenderCache, source: Picture, recipe: Recipe) -> bool {
    match recipe {
        Recipe::Standard { channel, scale, .. } => enlarged_for(cache, recipe) is Some
            <==> can_start(standard_picture(source, channel), scale),
        _ => true,
    }
}

/// The last step of a recipe.
pub open spec fn terminal_of(recipe: Recipe) -> Terminal {
    match recipe {
        Recipe::Calibrated { terminal, .. } => terminal,
        Recipe::Standard { terminal, .. } => terminal,
        _ => Terminal::Identity,
    }
}

/// What a threshold by a Gaussian window is applied to.
pub struct GaussianInput {
    pub image: WasmImage,
    pub window: u32,
    pub bias: u32,
}

/// Whether a threshold by a Gaussian window is asked for where a recipe needs
/// one and its enlarged picture is there, and for that picture.
pub open spec fn is_gaussian_input(
    input: Option<GaussianInput>,
    recipe: Recipe,
    enlarged: Option<Picture>,
) -> bool {
    match (terminal_of(recipe), enlarged) {
        (Terminal::GaussianAdaptive { window, bias }, Some(picture)) => input matches Some(input)
            && input.image@ == picture && input.window == window && input.bias == bias,
        _ => input is None,
    }
}

impl RenderCache {
    /// The picture that is kept for an origin and a scale.
    pub closed spec fn picture(self, origin: Origin, scale: u32) -> Option<Picture> {
        kept_picture(self.kept@, origin, scale, self.kept@.len() as int)
    }

    /// A cache that keeps nothing yet.
    pub fn new() -> (cache: RenderCache)
        ensures
            forall|origin: Origin, scale: u32|
                (#[trigger] cache.picture(origin, scale)) is None,
            forall|source: Picture| #[trigger] is_cache_of(cache, source),
    {
        RenderCache { kept: Vec::new() }
    }

    fn find(&self, origin: Origin, scale: u32) -> (image: Option<WasmImage>)
        ensures
            picture_of(image) == self.picture(origin, scale),
    {
        let mut n: usize = self.kept.len();
        while n > 0
            invariant
                n <= self.kept@.len(),
                self.picture(origin, scale) == kept_picture(self.kept@, origin, scale, n as int),
            decreases n,
        {
            let last: &Kept = &self.kept[n - 1];
            if last.origin == origin && last.scale == scale {
                return Some(last.image.copy());
            }
            n -= 1;
        }
        None
    }

    fn keep(&mut self, origin: Origin, scale: u32, image: WasmImage)
        ensures
            forall|other: Origin, size: u32|
                #[trigger] final(self).picture(other, size) == if other == origin && size
                    == scale {
                    Some(image@)
                } else {
                    old(self).picture(other, size)
                },
    {
        let ghost before = self.kept@;
        self.kept.push(Kept { origin, scale, image });
        proof {
            assert forall|other: Origin, size: u32|
                #[trigger] self.picture(other, size) == if other == origin && size == scale {
                    Some(image@)
                } else {
                    old(self).picture(other, size)
                } by {
                lemma_kept(before, self.kept@, other, size, before.len() as int);
            }
        }
    }

    /// The scale in which the luma of the source has to be enlarged before a
    /// recipe can be rendered, if it was not yet.
    pub fn missing_scale(&self, recipe: Recipe) -> (missing: Option<u32>)
        ensures
            missing == match recipe {
                Recipe::Calibrated { scale, .. } => if self.picture(
                    Origin::Calibrated,
                    scale,
                ) is None {
                    Some(scale)
                } else {
                    None
                },
                _ => None,
            },
    {
        match recipe {
            Recipe::Calibrated { scale, .. } => match self.find(Origin::Calibrated, scale) {
                None => Some(scale),
                Some(_) => None,
            },
            _ => None,
        }
    }

    /// Keeps the enlarged luma of the source.
    pub fn calibrate(&mut self, scale: u32, image: WasmImage)
        ensures
            forall|origin: Origin, size: u32|
                #[trigger] final(self).picture(origin, size) == if origin == Origin::Calibrated
                    && size == scale {
                    Some(image@)
                } else {
                    old(self).picture(origin, size)
                },
            forall|source: Picture|
                is_cache_of(*old(self), source) ==> #[trigger] is_cache_of(*final(self), source),
    {
        self.keep(Origin::Calibrated, scale, image);
        proof {
            assert forall|source: Picture| is_cache_of(*old(self), source) implies
                #[trigger] is_cache_of(*self, source) by {
                assert forall|channel: Channel, size: u32|
                    (#[trigger] self.picture(Origin::Standard { channel }, size)) == old(
                        self,
                    ).picture(Origin::Standard { channel }, size) by {
                }
            }
        }
    }

    fn base(&mut self, source: &WasmImage, channel: Channel) -> (base: WasmImage)
        requires
            is_cache_of(*old(self), source@),
        ensures
            is_cache_of(*final(self), source@),
            extends(*final(self), *old(self)),
            calibrated_alike(*final(self), *old(self)),
            base@ == standard_picture(source@, channel),
    {
        let origin: Origin = Origin::Standard { channel };
        match self.find(origin, 1) {
            Some(base) => base,
            None => {
                let base: WasmImage = standard_base(source, channel);
                self.keep(origin, 1, base.copy());
                base
            },
        }
    }

    /// What a standard variant starts from, and that in a scale.
    pub fn standard_inputs(&mut self, source: &WasmImage, channel: Channel, scale: u32) -> (made:
        Option<(WasmImage, WasmImage)>)
        requires
            is_cache_of(*old(self), source@),
        ensures
            is_cache_of(*final(self), source@),
            extends(*final(self), *old(self)),
            calibrated_alike(*final(self), *old(self)),
            made is Some <==> can_start(standard_picture(source@, channel), scale),
            made matches Some((base, scaled)) ==> {
                &&& base@ == standard_picture(source@, channel)
                &&& is_standard_enlargement(scaled@, base@, scale)
                &&& final(self).picture(Origin::Standard { channel }, scale) == Some(scaled@)
            },
    {
        let base: WasmImage = self.base(source, channel);
        let origin: Origin = Origin::Standard { channel };
        match self.find(origin, scale) {
            Some(scaled) => Some((base, scaled)),
            None => match standard_scaled(&base, scale) {
                Some(scaled) => {
                    self.keep(origin, scale, scaled.copy());
                    Some((base, scaled))
                },
                None => None,
            },
        }
    }

    /// What a threshold by a Gaussian window has to be applied to before a
    /// recipe can be rendered.
    pub fn gaussian_input(&mut self, source: &WasmImage, recipe: Recipe) -> (input: Option<
        GaussianInput,
    >)
        requires
            is_cache_of(*old(self), source@),
        ensures
            is_cache_of(*final(self), source@),
            extends(*final(self), *old(self)),
            calibrated_alike(*final(self), *old(self)),
            is_ready(*final(self), source@, recipe),
            is_gaussian_input(input, recipe, enlarged_for(*final(self), recipe)),
    {
        match recipe {
            Recipe::Calibrated { scale, terminal } => match self.find(Origin::Calibrated, scale) {
                Some(image) => gaussian_of(image, terminal),
                None => None,
            },
            Recipe::Standard { channel, scale, terminal } => match self.standard_inputs(
                source,
                channel,
                scale,
            ) {
                Some((_, image)) => gaussian_of(image, terminal),
                None => None,
            },
            _ => None,
        }
    }
}

fn gaussian_of(image: WasmImage, terminal: Terminal) -> (input: Option<GaussianInput>)
    ensures
        match terminal {
            Terminal::GaussianAdaptive { window, bias } => input matches Some(input)
                && input.image@ == image@ && input.window == window && input.bias == bias,
            _ => input is None,
        },
{
    match terminal {
        Terminal::GaussianAdaptive { window, bias } => Some(GaussianInput { image, window, bias }),
        _ => None,
    }
}

/// Renders a variant, from what is kept where it is. `gaussian` is what a
/// threshold by a Gaussian window makes of the enlarged picture.
pub fn render_variant(
    source: &WasmImage,
    recipe: Recipe,
    cache: &mut RenderCache,
    tables: &ToneTables,
    gaussian: Option<WasmImage>,
) -> (result: Option<WasmImage>)
    requires
        are_tables(*tables),
        is_cache_of(*old(cache), source@),
    ensures
        is_cache_of(*final(cache), source@),
        extends(*final(cache), *old(cache)),
        calibrated_alike(*final(cache), *old(cache)),
        is_ready(*final(cache), source@, recipe),
        picture_of(result) == variant_picture(
            source@,
            recipe,
            base_for(source@, recipe),
            enlarged_for(*final(cache), recipe),
            *tables,
            picture_of(gaussian),
        ),
{
    match recipe {
        Recipe::Original => Some(source.copy()),
        Recipe::Channel { channel } => Some(source.gray_channel(channel)),
        Recipe::Calibrated { scale, terminal } => match cache.find(Origin::Calibrated, scale) {
            Some(image) => apply_terminal(image, source, scale, terminal, tables, gaussian),
            None => None,
        },
        Recipe::Standard { channel, scale, terminal } => match cache.standard_inputs(
            source,
            channel,
            scale,
        ) {
            Some((base, image)) => apply_terminal(image, &base, scale, terminal, tables, gaussian),
            None => None,
        },
    }
}

} // verus!
