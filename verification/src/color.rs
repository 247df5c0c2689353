use vstd::prelude::*;
use crate::grid::Grid;

verus! {

/// A colour packed into 32 bits as 0xAARRGGBB: opacity, red, green and blue
/// with eight bits each.
#[derive(Debug, Clone, Copy, PartialEq, Eq, Structural)]
pub struct Color(pub u32);

/// The opacity of a packed colour.
pub open spec fn alpha_of(value: u32) -> u8 {
    (value / 0x100_0000) as u8
}

/// The red part of a packed colour.
pub open spec fn red_of(value: u32) -> u8 {
    (value / 0x1_0000 % 0x100) as u8
}

/// The green part of a packed colour.
pub open spec fn green_of(value: u32) -> u8 {
    (value / 0x100 % 0x100) as u8
}

/// The blue part of a packed colour.
pub open spec fn blue_of(value: u32) -> u8 {
    (value % 0x100) as u8
}

/// The colour packed from its four parts.
pub open spec fn packed(alpha: u8, red: u8, green: u8, blue: u8) -> u32 {
    (alpha * 0x100_0000 + red * 0x1_0000 + green * 0x100 + blue) as u32
}

/// The mean of the red, green and blue parts of a packed colour.
pub open spec fn shade_of(value: u32) -> u8 {
    ((red_of(value) + green_of(value) + blue_of(value)) / 3) as u8
}

/// A packed colour is the colour packed from its parts, and the parts of a
/// packed colour are the parts it was packed from.
pub proof fn lemma_packed_parts(alpha: u8, red: u8, green: u8, blue: u8)
    ensures
        alpha * 0x100_0000 + red * 0x1_0000 + green * 0x100 + blue <= u32::MAX,
        alpha_of(packed(alpha, red, green, blue)) == alpha,
        red_of(packed(alpha, red, green, blue)) == red,
        green_of(packed(alpha, red, green, blue)) == green,
        blue_of(packed(alpha, red, green, blue)) == blue,
{
    let value = alpha * 0x100_0000 + red * 0x1_0000 + green * 0x100 + blue;
    vstd::arithmetic::div_mod::lemma_fundamental_div_mod_converse(
        value,
        0x100_0000,
        alpha as int,
        red * 0x1_0000 + green * 0x100 + blue,
    );
    vstd::arithmetic::div_mod::lemma_fundamental_div_mod_converse(
        value,
        0x1_0000,
        alpha * 0x100 + red,
        green * 0x100 + blue,
    );
    vstd::arithmetic::div_mod::lemma_fundamental_div_mod_converse(
        alpha * 0x100 + red,
        0x100,
        alpha as int,
        red as int,
    );
    vstd::arithmetic::div_mod::lemma_fundamental_div_mod_converse(
        value,
        0x100,
        alpha * 0x1_0000 + red * 0x100 + green,
        blue as int,
    );
    vstd::arithmetic::div_mod::lemma_fundamental_div_mod_converse(
        alpha * 0x1_0000 + red * 0x100 + green,
        0x100,
        alpha * 0x100 + red,
        green as int,
    );
}

/// Every packed colour is the colour packed from its parts.
pub proof fn lemma_parts_packed(value: u32)
    ensures
        packed(alpha_of(value), red_of(value), green_of(value), blue_of(value)) == value,
{
    let low = value as int % 0x100;
    let rest = value as int / 0x100;
    let middle = rest % 0x100;
    let upper = rest / 0x100;
    let high = upper % 0x100;
    let top = upper / 0x100;
    vstd::arithmetic::div_mod::lemma_fundamental_div_mod(value as int, 0x100);
    vstd::arithmetic::div_mod::lemma_fundamental_div_mod(rest, 0x100);
    vstd::arithmetic::div_mod::lemma_fundamental_div_mod(upper, 0x100);
    vstd::arithmetic::div_mod::lemma_fundamental_div_mod_converse(
        value as int,
        0x1_0000,
        upper,
        middle * 0x100 + low,
    );
    vstd::arithmetic::div_mod::lemma_fundamental_div_mod_converse(
        value as int,
        0x100_0000,
        top,
        high * 0x1_0000 + middle * 0x100 + low,
    );
}

/// Pack a colour from its four parts.
pub fn pack(alpha: u8, red: u8, green: u8, blue: u8) -> (value: u32)
    ensures
        value == packed(alpha, red, green, blue),
{
    alpha as u32 * 0x100_0000 + red as u32 * 0x1_0000 + green as u32 * 0x100 + blue as u32
}

impl Color {
    /// Create a new 0xAARRGGBB color.
    pub fn new<T: ColorConvertible>(source: T) -> (color: Color)
        ensures
            color.0 == source.color_value(),
    {
        source.to_color()
    }

    /// Get the opacity of the color.
    pub fn a(&self) -> (alpha: u8)
        ensures
            alpha == alpha_of(self.0),
    {
        (self.0 / 0x100_0000) as u8
    }

    /// Get the red part of the color.
    pub fn r(&self) -> (red: u8)
        ensures
            red == red_of(self.0),
    {
        (self.0 / 0x1_0000 % 0x100) as u8
    }

    /// Get the green part of the color.
    pub fn g(&self) -> (green: u8)
        ensures
            green == green_of(self.0),
    {
        (self.0 / 0x100 % 0x100) as u8
    }

    /// Get the blue part of the color.
    pub fn b(&self) -> (blue: u8)
        ensures
            blue == blue_of(self.0),
    {
        (self.0 % 0x100) as u8
    }

    /// Set the opacity of the color.
    pub fn a_mut(&mut self, alpha: u8)
        ensures
            final(self).0 == packed(alpha, red_of(old(self).0), green_of(old(self).0), blue_of(old(self).0)),
            alpha_of(final(self).0) == alpha,
            red_of(final(self).0) == red_of(old(self).0),
            green_of(final(self).0) == green_of(old(self).0),
            blue_of(final(self).0) == blue_of(old(self).0),
    {
        proof {
            lemma_packed_parts(alpha, red_of(self.0), green_of(self.0), blue_of(self.0));
        }
        self.0 = pack(alpha, self.r(), self.g(), self.b());
    }

    /// Set the red part of the color.
    pub fn r_mut(&mut self, red: u8)
        ensures
            final(self).0 == packed(alpha_of(old(self).0), red, green_of(old(self).0), blue_of(old(self).0)),
            alpha_of(final(self).0) == alpha_of(old(self).0),
            red_of(final(self).0) == red,
            green_of(final(self).0) == green_of(old(self).0),
            blue_of(final(self).0) == blue_of(old(self).0),
    {
        proof {
            lemma_packed_parts(alpha_of(self.0), red, green_of(self.0), blue_of(self.0));
        }
        self.0 = pack(self.a(), red, self.g(), self.b());
    }

    /// Set the green part of the color.
    pub fn g_mut(&mut self, green: u8)
        ensures
            final(self).0 == packed(alpha_of(old(self).0), red_of(old(self).0), green, blue_of(old(self).0)),
            alpha_of(final(self).0) == alpha_of(old(self).0),
            red_of(final(self).0) == red_of(old(self).0),
            green_of(final(self).0) == green,
            blue_of(final(self).0) == blue_of(old(self).0),
    {
        proof {
            lemma_packed_parts(alpha_of(self.0), red_of(self.0), green, blue_of(self.0));
        }
        self.0 = pack(self.a(), self.r(), green, self.b());
    }

    /// Set the blue part of the color.
    pub fn b_mut(&mut self, blue: u8)
        ensures
            final(self).0 == packed(alpha_of(old(self).0), red_of(old(self).0), green_of(old(self).0), blue),
            alpha_of(final(self).0) == alpha_of(old(self).0),
            red_of(final(self).0) == red_of(old(self).0),
            green_of(final(self).0) == green_of(old(self).0),
            blue_of(final(self).0) == blue,
    {
        proof {
            lemma_packed_parts(alpha_of(self.0), red_of(self.0), green_of(self.0), blue);
        }
        self.0 = pack(self.a(), self.r(), self.g(), blue);
    }

    /// Get the shade of the color.
    pub fn shade(&self) -> (shade: u8)
        ensures
            shade == shade_of(self.0),
    {
        let sum: u16 = self.r() as u16 + self.g() as u16 + self.b() as u16;
        (sum / 3) as u8
    }
}

impl Default for Color {
    /// The colour with every part zero.
    fn default() -> (color: Color)
        ensures
            color.0 == 0,
    {
        Color(0)
    }
}

/// A type whose values can be shown as colours and made from colours.
pub trait ColorConvertible: Sized {
    /// The packed colour that the value is shown as.
    spec fn color_value(&self) -> u32;

    /// The value that is made from a packed colour.
    spec fn value_of_color(color: u32) -> Self;

    /// Convert the value to a 0xAARRGGBB color.
    fn to_color(&self) -> (color: Color)
        ensures
            color.0 == self.color_value(),
    ;

    /// Convert from color to self.
    fn from_color(color: Color) -> (value: Self)
        ensures
            value == Self::value_of_color(color.0),
    ;
}

impl ColorConvertible for Color {
    open spec fn color_value(&self) -> u32 {
        self.0
    }

    open spec fn value_of_color(color: u32) -> Color {
        Color(color)
    }

    fn to_color(&self) -> (color: Color) {
        *self
    }

    fn from_color(color: Color) -> (value: Color) {
        color
    }
}

impl ColorConvertible for u32 {
    open spec fn color_value(&self) -> u32 {
        *self
    }

    open spec fn value_of_color(color: u32) -> u32 {
        color
    }

    fn to_color(&self) -> (color: Color) {
        Color(*self)
    }

    fn from_color(color: Color) -> (value: u32) {
        color.0
    }
}

impl ColorConvertible for u8 {
    /// The opaque grey of the shade.
    open spec fn color_value(&self) -> u32 {
        packed(0xFF, *self, *self, *self)
    }

    open spec fn value_of_color(color: u32) -> u8 {
        shade_of(color)
    }

    fn to_color(&self) -> (color: Color) {
        Color(pack(0xFF, *self, *self, *self))
    }

    fn from_color(color: Color) -> (value: u8) {
        color.shade()
    }
}

impl ColorConvertible for bool {
    /// Opaque green for `true`, nothing for `false`.
    open spec fn color_value(&self) -> u32 {
        if *self {
            0xFF00FF00
        } else {
            0x00000000
        }
    }

    open spec fn value_of_color(color: u32) -> bool {
        color != 0
    }

    fn to_color(&self) -> (color: Color) {
        Color(if *self { 0xFF00FF00 } else { 0x00000000 })
    }

    fn from_color(color: Color) -> (value: bool) {
        color.0 != 0x000000
    }
}

impl ColorConvertible for [u8; 4] {
    /// The four bytes are opacity, red, green and blue.
    open spec fn color_value(&self) -> u32 {
        packed(self[0], self[1], self[2], self[3])
    }

    open spec fn value_of_color(color: u32) -> [u8; 4] {
        [alpha_of(color), red_of(color), green_of(color), blue_of(color)]
    }

    fn to_color(&self) -> (color: Color) {
        Color(pack(self[0], self[1], self[2], self[3]))
    }

    fn from_color(color: Color) -> (value: [u8; 4]) {
        [color.a(), color.r(), color.g(), color.b()]
    }
}

/// The colour that a pixel given as red, green, blue and opacity stands
/// for.
pub open spec fn color_of_rgba(pixel: [u8; 4]) -> u32 {
    packed(pixel[3], pixel[0], pixel[1], pixel[2])
}

impl<T: ColorConvertible> Grid<T> {
    /// A grid from pixels given as red, green, blue and opacity: each cell is
    /// the value made from the colour of its pixel.
    pub fn from_rgba_pixels(pixels: &Vec<[u8; 4]>, width: usize, height: usize) -> (grid: Grid<T>)
        ensures
            grid.width == width,
            grid.height == height,
            grid@.len() == pixels@.len(),
            forall|i: int|
                0 <= i < pixels@.len() ==> #[trigger] grid@[i] == T::value_of_color(
                    color_of_rgba(pixels@[i]),
                ),
    {
        let mut data: Vec<T> = Vec::with_capacity(pixels.len());
        let mut index: usize = 0;
        while index < pixels.len()
            invariant
                index <= pixels@.len(),
                data@.len() == index,
                forall|i: int|
                    0 <= i < index ==> #[trigger] data@[i] == T::value_of_color(
                        color_of_rgba(pixels@[i]),
                    ),
            decreases pixels@.len() - index,
        {
            let pixel: [u8; 4] = pixels[index];
            data.push(T::from_color(Color(pack(pixel[3], pixel[0], pixel[1], pixel[2]))));
            index += 1;
        }
        Grid::new(data, width, height)
    }

    /// The pixels of the grid as red, green, blue and opacity, row by row.
    pub fn to_rgba_pixels(&self) -> (pixels: Vec<[u8; 4]>)
        ensures
            pixels@.len() == self@.len(),
            forall|i: int|
                0 <= i < self@.len() ==> color_of_rgba(#[trigger] pixels@[i])
                    == self@[i].color_value(),
    {
        let mut pixels: Vec<[u8; 4]> = Vec::with_capacity(self.data.len());
        let mut index: usize = 0;
        while index < self.data.len()
            invariant
                index <= self@.len(),
                pixels@.len() == index,
                forall|i: int|
                    0 <= i < index ==> color_of_rgba(#[trigger] pixels@[i])
                        == self@[i].color_value(),
            decreases self@.len() - index,
        {
            let color: Color = self.data[index].to_color();
            proof {
                lemma_parts_packed(color.0);
            }
            pixels.push([color.r(), color.g(), color.b(), color.a()]);
            index += 1;
        }
        pixels
    }
}

} // verus!
