//! Palettes: a small ordered set of display colours, each with its code.

use vstd::prelude::*;
use embedded_graphics::pixelcolor::Rgb888;
use epd_waveshare::color::OctColor;

verus! {

/// An RGB888 colour.
pub type Rgb = (u8, u8, u8);

/// Squared Euclidean distance between two colours.
pub open spec fn dist2(a: Rgb, b: Rgb) -> int {
    (a.0 - b.0) * (a.0 - b.0) + (a.1 - b.1) * (a.1 - b.1) + (a.2 - b.2) * (a.2 - b.2)
}

/// `i` is the first entry of `colors` at least distance from `c`.
pub open spec fn is_nearest(colors: Seq<Rgb>, c: Rgb, i: int) -> bool {
    &&& 0 <= i < colors.len()
    &&& forall|j: int| 0 <= j < colors.len() ==> dist2(colors[i], c) <= dist2(colors[j], c)
    &&& forall|j: int| 0 <= j < i ==> dist2(colors[i], c) < dist2(colors[j], c)
}

/// The first entry of `colors[..n]` at least distance from `c`, found by a
/// left-to-right scan.
pub open spec fn nearest_in(colors: Seq<Rgb>, c: Rgb, n: int) -> int
    decreases n,
{
    if n <= 1 {
        0
    } else {
        let k = nearest_in(colors, c, n - 1);
        if dist2(colors[n - 1], c) < dist2(colors[k], c) {
            n - 1
        } else {
            k
        }
    }
}

/// The code of the entry of `colors` nearest to `c`, the first one on a tie.
pub open spec fn nearest_index(colors: Seq<Rgb>, c: Rgb) -> int {
    nearest_in(colors, c, colors.len() as int)
}

proof fn lemma_nearest_in(colors: Seq<Rgb>, c: Rgb, n: int)
    requires
        0 < n <= colors.len(),
    ensures
        0 <= nearest_in(colors, c, n) < n,
        forall|j: int|
            0 <= j < n ==> dist2(colors[nearest_in(colors, c, n)], c) <= dist2(#[trigger] colors[j], c),
        forall|j: int|
            0 <= j < nearest_in(colors, c, n) ==> dist2(colors[nearest_in(colors, c, n)], c) < dist2(
                #[trigger] colors[j],
                c,
            ),
    decreases n,
{
    if n > 1 {
        lemma_nearest_in(colors, c, n - 1);
    }
}

/// A nearest entry exists in any non-empty palette, and there is only one.
pub proof fn lemma_nearest_unique(colors: Seq<Rgb>, c: Rgb, i: int)
    requires
        0 < colors.len(),
    ensures
        is_nearest(colors, c, nearest_index(colors, c)),
        is_nearest(colors, c, i) ==> i == nearest_index(colors, c),
{
    lemma_nearest_in(colors, c, colors.len() as int);
}

proof fn lemma_dist2_zero(a: Rgb, b: Rgb)
    ensures
        0 <= dist2(a, b),
        dist2(a, b) == 0 ==> a == b,
        a == b ==> dist2(a, b) == 0,
{
    let (x, y, z) = (a.0 - b.0, a.1 - b.1, a.2 - b.2);
    assert(0 <= x * x && 0 <= y * y && 0 <= z * z) by (nonlinear_arith);
    assert(x * x + y * y + z * z == 0 ==> x == 0 && y == 0 && z == 0) by (nonlinear_arith);
    assert(dist2(a, b) == x * x + y * y + z * z);
    if dist2(a, b) == 0 {
        assert(a.0 == b.0 && a.1 == b.1 && a.2 == b.2);
    }
    if a == b {
        assert(x == 0 && y == 0 && z == 0);
        assert(x * x + y * y + z * z == 0) by (nonlinear_arith)
            requires
                x == 0,
                y == 0,
                z == 0,
        ;
    }
}

/// An entry's own colour is nearest to itself: `nearest` hands every colour of
/// a palette back unchanged, under that colour's own code.
pub proof fn lemma_nearest_of_entry(colors: Seq<Rgb>, code: int)
    requires
        distinct(colors),
        0 <= code < colors.len(),
    ensures
        nearest_index(colors, colors[code]) == code,
{
    let c = colors[code];
    let k = nearest_index(colors, c);
    lemma_nearest_unique(colors, c, code);
    lemma_dist2_zero(colors[k], c);
    lemma_dist2_zero(c, c);
}

/// Feeding the colour that `nearest` reconstructed back through `nearest`
/// returns the same code.
pub proof fn lemma_round_trip(p: &Palette, c: Rgb, r: (u8, Rgb), s: (u8, Rgb))
    requires
        p.wf(),
        is_nearest(p.colors(), c, r.0 as int),
        r.1 == p.colors()[r.0 as int],
        is_nearest(p.colors(), r.1, s.0 as int),
        s.1 == p.colors()[s.0 as int],
    ensures
        s == r,
{
    lemma_nearest_unique(p.colors(), r.1, s.0 as int);
    lemma_nearest_of_entry(p.colors(), r.0 as int);
}

/// No colour occurs twice.
pub open spec fn distinct(colors: Seq<Rgb>) -> bool {
    forall|i: int, j: int| 0 <= i < j < colors.len() ==> colors[i] != colors[j]
}

/// The seven-colour e-paper display's colours, by code: black, white, green,
/// blue, red, yellow, orange and the grey "clean" colour.
pub open spec fn display_colors() -> Seq<Rgb> {
    seq![
        (0u8, 0u8, 0u8),
        (255u8, 255u8, 255u8),
        (0u8, 255u8, 0u8),
        (0u8, 0u8, 255u8),
        (255u8, 0u8, 0u8),
        (255u8, 255u8, 0u8),
        (255u8, 128u8, 0u8),
        (128u8, 128u8, 128u8),
    ]
}

/// Relies on epd_waveshare's `From<Rgb888> for OctColor`, which returns the first
/// of the display's eight colours at least squared RGB distance, and on
/// `OctColor::get_nibble` and `OctColor::rgb`, which give that colour's code
/// and its RGB value.
#[verifier::external_body]
fn display_nearest(c: Rgb) -> (r: (u8, Rgb))
    ensures
        is_nearest(display_colors(), c, r.0 as int),
        r.1 == display_colors()[r.0 as int],
{
    let o = OctColor::from(Rgb888::new(c.0, c.1, c.2));
    (o.get_nibble(), o.rgb())
}

/// Squared distance between two colours.
fn distance(a: Rgb, b: Rgb) -> (d: u32)
    ensures
        d as int == dist2(a, b),
{
    let dr: u32 = if a.0 >= b.0 { (a.0 - b.0) as u32 } else { (b.0 - a.0) as u32 };
    let dg: u32 = if a.1 >= b.1 { (a.1 - b.1) as u32 } else { (b.1 - a.1) as u32 };
    let db: u32 = if a.2 >= b.2 { (a.2 - b.2) as u32 } else { (b.2 - a.2) as u32 };
    assert(dr * dr <= 65025 && dg * dg <= 65025 && db * db <= 65025) by (nonlinear_arith)
        requires
            dr <= 255,
            dg <= 255,
            db <= 255,
    ;
    assert(dist2(a, b) == dr * dr + dg * dg + db * db) by (nonlinear_arith)
        requires
            dr == if a.0 >= b.0 { a.0 - b.0 } else { b.0 - a.0 },
            dg == if a.1 >= b.1 { a.1 - b.1 } else { b.1 - a.1 },
            db == if a.2 >= b.2 { a.2 - b.2 } else { b.2 - a.2 },
    ;
    dr * dr + dg * dg + db * db
}

/// A fixed, ordered set of colours; an entry's code is its position.
pub struct Palette {
    /// The entries, or `None` for the seven-colour display's own palette.
    table: Option<Vec<Rgb>>,
}

impl Palette {
    /// The entries, in code order.
    pub closed spec fn colors(&self) -> Seq<Rgb> {
        match self.table {
            Some(v) => v@,
            None => display_colors(),
        }
    }

    /// Between one and 256 entries, no two alike, so that codes fit a byte and
    /// name one colour each.
    pub open spec fn wf(&self) -> bool {
        &&& 0 < self.colors().len() <= 256
        &&& distinct(self.colors())
    }

    /// The seven-colour e-paper display's palette.
    pub fn display() -> (p: Palette)
        ensures
            p.wf(),
            p.colors() == display_colors(),
    {
        Palette { table: None }
    }

    /// A palette of the given colours, coded by position; `None` if the list is
    /// empty, longer than 256, or holds a colour twice.
    pub fn from_colors(colors: Vec<Rgb>) -> (r: Option<Palette>)
        ensures
            r.is_some() <==> (0 < colors@.len() <= 256 && distinct(colors@)),
            r matches Some(p) ==> p.wf() && p.colors() == colors@,
    {
        let n = colors.len();
        if n == 0 || n > 256 {
            return None;
        }
        let mut i: usize = 0;
        while i < n
            invariant
                n == colors@.len(),
                i <= n,
                forall|a: int, b: int| 0 <= a < b < n && a < i ==> colors@[a] != colors@[b],
            decreases n - i,
        {
            let mut j: usize = i + 1;
            while j < n
                invariant
                    n == colors@.len(),
                    i < j <= n,
                    forall|a: int, b: int| 0 <= a < b < n && a < i ==> colors@[a] != colors@[b],
                    forall|b: int| i < b < j ==> colors@[i as int] != colors@[b],
                decreases n - j,
            {
                let (a, b) = (colors[i], colors[j]);
                if a.0 == b.0 && a.1 == b.1 && a.2 == b.2 {
                    return None;
                }
                j += 1;
            }
            i += 1;
        }
        Some(Palette { table: Some(colors) })
    }

    /// The number of entries.
    pub fn len(&self) -> (n: usize)
        requires
            self.wf(),
        ensures
            n == self.colors().len(),
    {
        match &self.table {
            Some(v) => v.len(),
            None => 8,
        }
    }

    /// The code of the entry nearest to `c`, the first one on a tie, together
    /// with that entry's colour.
    pub fn nearest(&self, c: Rgb) -> (r: (u8, Rgb))
        requires
            self.wf(),
        ensures
            is_nearest(self.colors(), c, r.0 as int),
            r.1 == self.colors()[r.0 as int],
    {
        match &self.table {
            None => display_nearest(c),
            Some(v) => {
                let n = v.len();
                let mut best: usize = 0;
                let mut best_d = distance(v[0], c);
                let mut i: usize = 1;
                while i < n
                    invariant
                        n == v@.len(),
                        0 < n <= 256,
                        best < i <= n,
                        best_d as int == dist2(v@[best as int], c),
                        forall|j: int| 0 <= j < i ==> best_d <= dist2(v@[j], c),
                        forall|j: int| 0 <= j < best ==> best_d < dist2(v@[j], c),
                    decreases n - i,
                {
                    let d = distance(v[i], c);
                    if d < best_d {
                        best = i;
                        best_d = d;
                    }
                    i += 1;
                }
                (best as u8, v[best])
            },
        }
    }
}

} // verus!
