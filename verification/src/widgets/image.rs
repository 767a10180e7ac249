use vstd::prelude::*;
use crate::layout::rect::Rect;
use crate::style::properties::Style;
use crate::units::{half, saturate, to_unit, Vec2};

verus! {

/// How a picture fills the rectangle of its widget.
#[derive(Copy, Clone, Debug, PartialEq, Eq, Structural)]
pub enum ImageFit {
    /// Stretched to the rectangle, whatever its proportions.
    Fill,
    /// As large as fits inside, proportions kept.
    Contain,
    /// As small as covers the rectangle, proportions kept.
    Cover,
}

impl Default for ImageFit {
    fn default() -> (fit: ImageFit)
        ensures
            fit == ImageFit::Fill,
    {
        ImageFit::Fill
    }
}


/// A picture of `img_w` by `img_h` is wider for its height than a
/// rectangle of `w` by `h`.
pub open spec fn wider_than(img_w: int, img_h: int, w: int, h: int) -> bool {
    img_w * h > w * img_h
}

/// The size at which a picture of `img_w` by `img_h` is drawn in a
/// rectangle of `w` by `h`: stretched to it, or scaled so that one extent
/// is that of the rectangle and the other keeps the picture's proportions,
/// rounded down. To be contained, a picture that is wider for its height
/// than the rectangle takes the rectangle's width; to cover, it takes the
/// rectangle's height.
pub open spec fn fitted_size(fit: ImageFit, img_w: int, img_h: int, w: int, h: int) -> (int, int) {
    let by_width = (w, (w * img_h) / img_w);
    let by_height = ((h * img_w) / img_h, h);
    match fit {
        ImageFit::Fill => (w, h),
        ImageFit::Contain => if wider_than(img_w, img_h, w, h) {
            by_width
        } else {
            by_height
        },
        ImageFit::Cover => if wider_than(img_w, img_h, w, h) {
            by_height
        } else {
            by_width
        },
    }
}

/// The rectangle at which a picture of `img_w` by `img_h` is drawn in
/// `container`: of the fitted size, with the same centre as the container.
pub open spec fn fitted_rect(fit: ImageFit, container: Rect, img_w: int, img_h: int) -> Rect {
    let size = fitted_size(fit, img_w, img_h, container.size.x as int, container.size.y as int);
    Rect {
        origin: Vec2 {
            x: saturate(container.origin.x + half(container.size.x - size.0)) as i32,
            y: saturate(container.origin.y + half(container.size.y - size.1)) as i32,
        },
        size: Vec2 { x: saturate(size.0) as i32, y: saturate(size.1) as i32 },
    }
}

/// Where a picture is drawn in `container`, if anywhere. In a container
/// without extent nothing is drawn. A picture whose size is not known, or
/// that has no extent, is drawn at the container's rectangle.
pub open spec fn drawn_rect(fit: ImageFit, container: Rect, dims: Option<(u32, u32)>) -> Option<
    Rect,
> {
    if container.size.x <= 0 || container.size.y <= 0 {
        None
    } else {
        match dims {
            Some((w, h)) => if w > 0 && h > 0 {
                Some(fitted_rect(fit, container, w as int, h as int))
            } else {
                Some(container)
            },
            None => Some(container),
        }
    }
}

/// An extent scaled by a ratio of picture extents stays within bounds.
proof fn lemma_scaled(extent: int, over: int, under: int)
    requires
        0 <= extent <= 0x8000_0000,
        0 <= over <= 0x1_0000_0000,
        1 <= under,
    ensures
        0 <= extent * over <= 0x8000_0000 * 0x1_0000_0000,
        0 <= (extent * over) / under <= extent * over,
{
    let product = extent * over;
    assert(0 <= product <= 0x8000_0000 * 0x1_0000_0000) by (nonlinear_arith)
        requires
            product == extent * over,
            0 <= extent <= 0x8000_0000,
            0 <= over <= 0x1_0000_0000,
    ;
    vstd::arithmetic::div_mod::lemma_div_pos_is_pos(product, under);
    vstd::arithmetic::div_mod::lemma_fundamental_div_mod(product, under);
    vstd::arithmetic::div_mod::lemma_mod_pos_bound(product, under);
    assert(product / under <= product) by (nonlinear_arith)
        requires
            product == under * (product / under) + product % under,
            0 <= product % under,
            under >= 1,
            0 <= product / under,
    ;
}

/// Where a picture of the size `dims`, in pixels, is drawn in `container`.
pub fn fit_rect(fit: ImageFit, container: Rect, dims: Option<(u32, u32)>) -> (drawn: Option<Rect>)
    ensures
        drawn == drawn_rect(fit, container, dims),
{
    if container.size.x <= 0 || container.size.y <= 0 {
        return None;
    }
    let (img_w, img_h) = match dims {
        Some((w, h)) => (w, h),
        None => (0, 0),
    };
    if img_w == 0 || img_h == 0 {
        return Some(container);
    }
    let w = container.size.x as i128;
    let h = container.size.y as i128;
    let iw = img_w as i128;
    let ih = img_h as i128;
    proof {
        assert(0 <= iw * h <= 0x1_0000_0000 * 0x8000_0000) by (nonlinear_arith)
            requires
                0 <= iw <= 0x1_0000_0000,
                0 <= h <= 0x8000_0000,
        ;
        assert(0 <= w * ih <= 0x1_0000_0000 * 0x8000_0000) by (nonlinear_arith)
            requires
                0 <= ih <= 0x1_0000_0000,
                0 <= w <= 0x8000_0000,
        ;
        assert(0 <= h * iw <= 0x1_0000_0000 * 0x8000_0000) by (nonlinear_arith)
            requires
                0 <= iw <= 0x1_0000_0000,
                0 <= h <= 0x8000_0000,
        ;
    }
    let wider = iw * h > w * ih;
    let take_width = match fit {
        ImageFit::Fill => false,
        ImageFit::Contain => wider,
        ImageFit::Cover => !wider,
    };
    let (new_w, new_h): (i128, i128) = match fit {
        ImageFit::Fill => (w, h),
        _ => if take_width {
            (w, (w * ih) / iw)
        } else {
            ((h * iw) / ih, h)
        },
    };
    proof {
        lemma_scaled(w as int, ih as int, iw as int);
        lemma_scaled(h as int, iw as int, ih as int);
    }
    let dx = (w - new_w) / 2;
    let dy = (h - new_h) / 2;
    Some(
        Rect {
            origin: Vec2 {
                x: to_unit(container.origin.x as i128 + dx),
                y: to_unit(container.origin.y as i128 + dy),
            },
            size: Vec2 { x: to_unit(new_w), y: to_unit(new_h) },
        },
    )
}


/// A picture from a file.
pub struct Image {
    pub path: String,
    pub fit: ImageFit,
    /// The size of the picture in pixels, once it is known.
    pub dimensions: Option<(u32, u32)>,
    pub style: Style,
}

impl Clone for Image {
    fn clone(&self) -> (image: Self)
        ensures
            image.path@ == self.path@,
            image.fit == self.fit,
            image.dimensions == self.dimensions,
            image.style == self.style,
    {
        Image {
            path: self.path.clone(),
            fit: self.fit,
            dimensions: self.dimensions,
            style: self.style,
        }
    }
}

impl Image {
    /// The picture at `path`, stretched to its rectangle, of a size that
    /// is not known yet.
    pub fn new(path: String) -> (image: Self)
        ensures
            image.path == path,
            image.fit == ImageFit::Fill,
            image.dimensions.is_none(),
            image.style == Style::spec_default(),
    {
        Image { path, fit: ImageFit::default(), dimensions: None, style: Style::default() }
    }

    pub fn fit(self, fit: ImageFit) -> (image: Self)
        ensures
            image.fit == fit,
            image.path == self.path,
            image.dimensions == self.dimensions,
            image.style == self.style,
    {
        let mut image = self;
        image.fit = fit;
        image
    }

    pub fn width(self, width: i32) -> (image: Self)
        ensures
            image.style == (Style { width: Some(width), ..self.style }),
            image.path == self.path,
            image.fit == self.fit,
            image.dimensions == self.dimensions,
    {
        let mut image = self;
        image.style.width = Some(width);
        image
    }

    pub fn height(self, height: i32) -> (image: Self)
        ensures
            image.style == (Style { height: Some(height), ..self.style }),
            image.path == self.path,
            image.fit == self.fit,
            image.dimensions == self.dimensions,
    {
        let mut image = self;
        image.style.height = Some(height);
        image
    }

    /// The size that the picture asks for: the fixed one where the style
    /// has both a width and a height, else its own in pixels, pinned to
    /// the unit range, and none where that is not known.
    pub open spec fn wanted_size(self) -> Vec2 {
        match (self.style.width, self.style.height) {
            (Some(w), Some(h)) => Vec2 { x: w, y: h },
            _ => match self.dimensions {
                Some((w, h)) => Vec2 { x: saturate(w as int) as i32, y: saturate(h as int) as i32 },
                None => Vec2::spec_zero(),
            },
        }
    }

    pub fn measure(&self) -> (size: Vec2)
        ensures
            size == self.wanted_size(),
    {
        match (self.style.width, self.style.height) {
            (Some(w), Some(h)) => Vec2 { x: w, y: h },
            _ => match self.dimensions {
                Some((w, h)) => Vec2 { x: to_unit(w as i128), y: to_unit(h as i128) },
                None => Vec2::zero(),
            },
        }
    }

    /// Where the picture is drawn in `layout`, if anywhere.
    pub fn draw_rect(&self, layout: Rect) -> (drawn: Option<Rect>)
        ensures
            drawn == drawn_rect(self.fit, layout, self.dimensions),
    {
        fit_rect(self.fit, layout, self.dimensions)
    }
}

} // verus!
