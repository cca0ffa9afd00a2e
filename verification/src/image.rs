//! The pixel grid.
//!
//! An image is a grid of pixels in row-major order from the top row down.
//! A pixel knows its column and its row, rows counted from the bottom as
//! the camera counts them, and holds a colour once it has been rendered.

use vstd::prelude::*;
use vstd::arithmetic::div_mod::lemma_fundamental_div_mod_converse;
use crate::ppm::{
    body, header, holdable, lemma_text_of_parse, parse_ppm, parse_spec, ppm_text, push_header,
    push_line,
};
use crate::scalar::{truncated, Scalar};
use crate::tiling::{is_split, lemma_chunks_tile, Chunk};

verus! {

/// A colour as it is written to an image file: three whole channels. The
/// channels are not clamped, so an overbright pixel may lie above 255.
#[derive(Clone, Copy, Debug, PartialEq, Eq, Structural)]
pub struct Rgb {
    pub r: i32,
    pub g: i32,
    pub b: i32,
}

impl Rgb {
    /// The colour whose channels are the given numbers cut down to whole
    /// numbers. Nothing is clamped to the range of a byte.
    pub fn from_channels(r: Scalar, g: Scalar, b: Scalar) -> (c: Rgb)
        ensures
            c.r == truncated(r@),
            c.g == truncated(g@),
            c.b == truncated(b@),
    {
        Rgb { r: r.to_i32(), g: g.to_i32(), b: b.to_i32() }
    }
}

/// One pixel: its column, its row counted from the bottom, and its colour
/// once rendered.
#[derive(Clone, Copy, Debug)]
pub struct Pixel {
    pub x: usize,
    pub y: usize,
    pub color: Option<Rgb>,
}

impl Pixel {
    /// A pixel that has not been rendered yet.
    pub fn new(x: usize, y: usize) -> (p: Pixel)
        ensures
            p.x == x,
            p.y == y,
            p.color is None,
    {
        Pixel { x, y, color: None }
    }

    /// Renders the pixel: asks the shader for the colour at its place and
    /// keeps it.
    pub fn render<F: Fn(usize, usize) -> Rgb>(&mut self, shade: &F)
        requires
            call_requires(*shade, (old(self).x, old(self).y)),
        ensures
            final(self).x == old(self).x,
            final(self).y == old(self).y,
            final(self).color matches Some(c) && call_ensures(*shade, (old(self).x, old(self).y), c),
    {
        let c = shade(self.x, self.y);
        self.color = Some(c);
    }
}

/// The column of the pixel at index `i` in an image of the given width.
pub open spec fn column_of(width: nat, i: int) -> int {
    i % (width as int)
}

/// The row, counted from the bottom, of the pixel at index `i`.
pub open spec fn row_of(width: nat, height: nat, i: int) -> int {
    height - 1 - i / (width as int)
}

/// Whether `color` is a colour that the shader may give for the pixel in
/// column `x` and row `y`.
pub open spec fn shaded_by<F: Fn(usize, usize) -> Rgb>(
    shade: F,
    x: int,
    y: int,
    color: Option<Rgb>,
) -> bool {
    color is Some && call_ensures(shade, (x as usize, y as usize), color->0)
}

/// Every index of a grid names a column and a row of the grid.
pub proof fn lemma_place_in_grid(width: nat, height: nat, i: int)
    requires
        0 <= i < width * height,
    ensures
        0 <= column_of(width, i) < width,
        0 <= row_of(width, height, i) < height,
        i == (height - 1 - row_of(width, height, i)) * width + column_of(width, i),
{
    let w = width as int;
    assert(w > 0) by (nonlinear_arith)
        requires
            0 <= i < w * height,
            w >= 0,
    ;
    vstd::arithmetic::div_mod::lemma_fundamental_div_mod(i, w);
    vstd::arithmetic::div_mod::lemma_div_pos_is_pos(i, w);
    assert(i / w < height) by (nonlinear_arith)
        requires
            i == w * (i / w) + i % w,
            0 <= i % w,
            i < w * height,
            w > 0,
    ;
    assert((i / w) * w == w * (i / w)) by (nonlinear_arith);
}

/// What an image holds: its size and the colour of every pixel, in
/// row-major order from the top row down.
pub struct ImageView {
    pub width: nat,
    pub height: nat,
    pub colors: Seq<Option<Rgb>>,
}

impl ImageView {
    /// Whether every pixel has its colour.
    pub open spec fn rendered(&self) -> bool {
        forall|i: int| 0 <= i < self.colors.len() ==> (#[trigger] self.colors[i]) is Some
    }

    /// The colours of a rendered image.
    pub open spec fn triples(&self) -> Seq<Rgb> {
        Seq::new(self.colors.len(), |i: int| self.colors[i]->0)
    }
}

/// Whether chunk `i` starts where the chunk before it ends, or at zero if
/// it is the first, and its part holds one colour for each of its pixels.
pub open spec fn chunk_fits(chunks: Seq<Chunk>, parts: Seq<Vec<Rgb>>, i: int) -> bool {
    &&& chunks[i].start == if i == 0 {
        0
    } else {
        chunks[i - 1].end as int
    }
    &&& chunks[i].start <= chunks[i].end
    &&& parts[i].len() == chunks[i].end - chunks[i].start
}

/// Whether the chunks tile `total` pixels in their order and each part
/// fits its chunk.
pub open spec fn parts_fit(chunks: Seq<Chunk>, parts: Seq<Vec<Rgb>>, total: nat) -> bool {
    &&& parts.len() == chunks.len()
    &&& forall|i: int| 0 <= i < chunks.len() ==> #[trigger] chunk_fits(chunks, parts, i)
    &&& total == if chunks.len() == 0 {
        0
    } else {
        chunks.last().end as int
    }
}

/// Law: the split of an image among its workers tiles the image, so
/// parts of the right lengths always fit it, whatever the number of
/// workers.
pub proof fn lemma_split_fits(chunks: Seq<Chunk>, parts: Seq<Vec<Rgb>>, total: nat, workers: nat)
    requires
        workers > 0,
        is_split(chunks, total, workers),
        parts.len() == chunks.len(),
        forall|i: int|
            0 <= i < chunks.len() ==> (#[trigger] parts[i]).len() == chunks[i].end
                - chunks[i].start,
    ensures
        parts_fit(chunks, parts, total),
{
    assert forall|i: int| 0 <= i < chunks.len() implies #[trigger] chunk_fits(
        chunks,
        parts,
        i,
    ) by {
        lemma_chunks_tile(total, workers, i as nat);
        assert(parts[i].len() == chunks[i].end - chunks[i].start);
        if i > 0 {
            assert(chunks[i - 1].end == chunks[i].start);
        }
    }
    lemma_chunks_tile(total, workers, (workers - 1) as nat);
}

/// In chunks that tile an image, a pixel below the end of chunk `n - 1`
/// lies in one of the first `n` chunks.
proof fn lemma_chunk_of(chunks: Seq<Chunk>, parts: Seq<Vec<Rgb>>, total: nat, p: int, n: int) -> (i:
    int)
    requires
        parts_fit(chunks, parts, total),
        0 < n <= chunks.len(),
        0 <= p < chunks[n - 1].end,
    ensures
        0 <= i < n,
        chunks[i].start <= p < chunks[i].end,
        p - chunks[i].start < parts[i].len(),
    decreases n,
{
    assert(chunk_fits(chunks, parts, n - 1));
    if chunks[n - 1].start <= p {
        n - 1
    } else {
        lemma_chunk_of(chunks, parts, total, p, n - 1)
    }
}

/// Law: the gathered image does not depend on how the pixels were shared
/// out. Where every worker renders for each pixel of its chunk what the
/// shader `f` gives for that pixel's index, every pixel of the gathered
/// image holds what the shader gives for it, whatever the number of
/// workers and the sizes of their chunks.
pub proof fn lemma_gathered_image(
    colors: Seq<Option<Rgb>>,
    chunks: Seq<Chunk>,
    parts: Seq<Vec<Rgb>>,
    f: spec_fn(int) -> Rgb,
)
    requires
        parts_fit(chunks, parts, colors.len()),
        forall|i: int, k: int|
            0 <= i < chunks.len() && 0 <= k < parts[i].len() ==> colors[chunks[i].start + k]
                == Some(#[trigger] parts[i][k]),
        forall|i: int, k: int|
            0 <= i < chunks.len() && 0 <= k < parts[i].len() ==> #[trigger] parts[i][k] == f(
                chunks[i].start + k,
            ),
    ensures
        forall|p: int| 0 <= p < colors.len() ==> #[trigger] colors[p] == Some(f(p)),
{
    assert forall|p: int| 0 <= p < colors.len() implies #[trigger] colors[p] == Some(f(p)) by {
        let i = lemma_chunk_of(chunks, parts, colors.len(), p, chunks.len() as int);
        let k = p - chunks[i].start;
        assert(colors[chunks[i].start + k] == Some(parts[i][k]));
    }
}

/// Chunks that tile an image lie inside it.
proof fn lemma_parts_within(chunks: Seq<Chunk>, parts: Seq<Vec<Rgb>>, total: nat, i: int)
    requires
        parts_fit(chunks, parts, total),
        0 <= i < chunks.len(),
    ensures
        chunks[i].end <= total,
    decreases chunks.len() - i,
{
    if i + 1 < chunks.len() {
        lemma_parts_within(chunks, parts, total, i + 1);
        assert(chunk_fits(chunks, parts, i + 1));
    }
}

/// A grid of pixels.
#[derive(Debug)]
pub struct Image {
    pixels: Vec<Pixel>,
    width: usize,
    height: usize,
}

impl Image {
    /// Every pixel sits at the place that its index gives it.
    #[verifier::type_invariant]
    spec fn grid(&self) -> bool {
        &&& self.pixels.len() == self.width * self.height
        &&& forall|i: int|
            0 <= i < self.pixels.len() ==> {
                &&& (#[trigger] self.pixels[i]).x == column_of(self.width as nat, i)
                &&& self.pixels[i].y == row_of(self.width as nat, self.height as nat, i)
            }
    }

    /// The size and the colours.
    pub closed spec fn view(&self) -> ImageView {
        ImageView {
            width: self.width as nat,
            height: self.height as nat,
            colors: Seq::new(self.pixels.len() as nat, |i: int| self.pixels[i].color),
        }
    }

    /// An image of the given size with no pixel rendered. The number of
    /// pixels has to fit the machine.
    pub fn new(width: usize, height: usize) -> (img: Image)
        requires
            width * height <= usize::MAX,
        ensures
            img@.width == width,
            img@.height == height,
            img@.colors == Seq::new((width * height) as nat, |i: int| None::<Rgb>),
    {
        let mut pixels: Vec<Pixel> = Vec::new();
        let mut row: usize = 0;
        while row < height
            invariant
                row <= height,
                width * height <= usize::MAX,
                pixels.len() == row * width,
                forall|i: int|
                    0 <= i < pixels.len() ==> {
                        &&& (#[trigger] pixels[i]).x == column_of(width as nat, i)
                        &&& pixels[i].y == row_of(width as nat, height as nat, i)
                        &&& pixels[i].color is None
                    },
            decreases height - row,
        {
            let y = height - 1 - row;
            let mut x: usize = 0;
            while x < width
                invariant
                    x <= width,
                    row < height,
                    y == height - 1 - row,
                    width * height <= usize::MAX,
                    pixels.len() == row * width + x,
                    forall|i: int|
                        0 <= i < pixels.len() ==> {
                            &&& (#[trigger] pixels[i]).x == column_of(width as nat, i)
                            &&& pixels[i].y == row_of(width as nat, height as nat, i)
                            &&& pixels[i].color is None
                        },
                decreases width - x,
            {
                proof {
                    let i = row * width + x;
                    lemma_fundamental_div_mod_converse(i, width as int, row as int, x as int);
                    assert(row * width + x < (row + 1) * width) by (nonlinear_arith)
                        requires
                            x < width,
                    ;
                    assert((row + 1) * width <= height * width) by (nonlinear_arith)
                        requires
                            row < height,
                    ;
                }
                pixels.push(Pixel::new(x, y));
                x = x + 1;
            }
            assert(row * width + width == (row + 1) * width) by (nonlinear_arith);
            row = row + 1;
        }
        assert(height * width == width * height) by (nonlinear_arith);
        let img = Image { pixels, width, height };
        assert(img@.colors =~= Seq::new((width * height) as nat, |i: int| None::<Rgb>));
        img
    }

    /// The number of columns.
    pub fn width(&self) -> (w: usize)
        ensures
            w == self@.width,
    {
        self.width
    }

    /// The number of rows.
    pub fn height(&self) -> (h: usize)
        ensures
            h == self@.height,
    {
        self.height
    }

    /// The number of pixels.
    pub fn len(&self) -> (n: usize)
        ensures
            n == self@.colors.len(),
            n == self@.width * self@.height,
    {
        proof {
            use_type_invariant(self);
        }
        self.pixels.len()
    }

    /// The pixel at index `i`, if there is one: it sits in the column and
    /// row that the index gives it.
    pub fn pixel(&self, i: usize) -> (r: Option<Pixel>)
        ensures
            r is Some <==> i < self@.colors.len(),
            r matches Some(p) ==> {
                &&& p.x == column_of(self@.width, i as int)
                &&& p.y == row_of(self@.width, self@.height, i as int)
                &&& p.color == self@.colors[i as int]
            },
    {
        proof {
            use_type_invariant(self);
        }
        if i < self.pixels.len() {
            Some(self.pixels[i])
        } else {
            None
        }
    }

    /// The index of the pixel in column `x` and row `y`, rows counted from
    /// the bottom, if the image has such a pixel.
    pub fn index_of(&self, x: usize, y: usize) -> (r: Option<usize>)
        ensures
            r is Some <==> x < self@.width && y < self@.height,
            r matches Some(i) ==> {
                &&& i < self@.colors.len()
                &&& column_of(self@.width, i as int) == x
                &&& row_of(self@.width, self@.height, i as int) == y
            },
    {
        proof {
            use_type_invariant(self);
        }
        if x < self.width && y < self.height {
            let row = self.height - 1 - y;
            proof {
                let w = self.width as int;
                assert(row * w + x < (row + 1) * w) by (nonlinear_arith)
                    requires
                        x < w,
                ;
                assert((row + 1) * w <= self.height * w) by (nonlinear_arith)
                    requires
                        row < self.height,
                        w > 0,
                ;
                assert(self.height * w == w * self.height) by (nonlinear_arith);
                assert(0 <= row * w) by (nonlinear_arith)
                    requires
                        0 <= row,
                        0 <= w,
                ;
                lemma_fundamental_div_mod_converse(row * w + x, w, row as int, x as int);
            }
            Some(row * self.width + x)
        } else {
            None
        }
    }

    /// Renders the image: every pixel, in the order of the grid, takes the
    /// colour that the shader gives for its column and row.
    pub fn render<F: Fn(usize, usize) -> Rgb>(&mut self, shade: F)
        requires
            forall|x: usize, y: usize|
                x < old(self)@.width && y < old(self)@.height ==> call_requires(shade, (x, y)),
        ensures
            final(self)@.width == old(self)@.width,
            final(self)@.height == old(self)@.height,
            final(self)@.colors.len() == old(self)@.colors.len(),
            forall|i: int|
                0 <= i < final(self)@.colors.len() ==> shaded_by(
                    shade,
                    column_of(old(self)@.width, i),
                    row_of(old(self)@.width, old(self)@.height, i),
                    #[trigger] final(self)@.colors[i],
                ),
    {
        proof {
            use_type_invariant(&*self);
        }
        let n = self.pixels.len();
        let mut fresh: Vec<Pixel> = Vec::new();
        let mut i: usize = 0;
        while i < n
            invariant
                i <= n,
                n == self.pixels.len(),
                fresh.len() == i,
                self.grid(),
                forall|x: usize, y: usize|
                    x < self.width && y < self.height ==> call_requires(shade, (x, y)),
                forall|j: int|
                    0 <= j < i ==> {
                        &&& (#[trigger] fresh[j]).x == self.pixels[j].x
                        &&& fresh[j].y == self.pixels[j].y
                        &&& shaded_by(shade, fresh[j].x as int, fresh[j].y as int, fresh[j].color)
                    },
            decreases n - i,
        {
            let mut p = self.pixels[i];
            proof {
                lemma_place_in_grid(self.width as nat, self.height as nat, i as int);
            }
            p.render(&shade);
            fresh.push(p);
            i = i + 1;
        }
        self.pixels = fresh;
        assert forall|i: int| 0 <= i < self@.colors.len() implies shaded_by(
            shade,
            column_of(old(self)@.width, i),
            row_of(old(self)@.width, old(self)@.height, i),
            #[trigger] self@.colors[i],
        ) by {
            let p = self.pixels[i];
            lemma_place_in_grid(self.width as nat, self.height as nat, i);
        }
    }

    /// Stores the colours that a worker has rendered for the pixels from
    /// index `start` on. Colours that would not fit are refused, and the
    /// image stays as it was.
    pub fn store(&mut self, start: usize, colors: &Vec<Rgb>) -> (ok: bool)
        ensures
            ok <==> start + colors.len() <= old(self)@.colors.len(),
            final(self)@.width == old(self)@.width,
            final(self)@.height == old(self)@.height,
            final(self)@.colors.len() == old(self)@.colors.len(),
            forall|i: int|
                0 <= i < old(self)@.colors.len() ==> #[trigger] final(self)@.colors[i] == if ok
                    && start <= i < start + colors.len() {
                    Some(colors[i - start])
                } else {
                    old(self)@.colors[i]
                },
    {
        proof {
            use_type_invariant(&*self);
        }
        let n = self.pixels.len();
        if start > n || colors.len() > n - start {
            return false;
        }
        let mut fresh: Vec<Pixel> = Vec::new();
        let mut i: usize = 0;
        while i < n
            invariant
                i <= n,
                start + colors.len() <= n,
                n == self.pixels.len(),
                fresh.len() == i,
                forall|j: int|
                    0 <= j < i ==> {
                        &&& (#[trigger] fresh[j]).x == self.pixels[j].x
                        &&& fresh[j].y == self.pixels[j].y
                        &&& fresh[j].color == if start <= j < start + colors.len() {
                            Some(colors[j - start])
                        } else {
                            self.pixels[j].color
                        }
                    },
            decreases n - i,
        {
            let mut p = self.pixels[i];
            if start <= i && i - start < colors.len() {
                p.color = Some(colors[i - start]);
            }
            fresh.push(p);
            i = i + 1;
        }
        self.pixels = fresh;
        true
    }

    /// Gathers what the workers have rendered: one part of colours for
    /// each chunk. Where the chunks tile the image and the parts fit them,
    /// every pixel takes the colour that the owner of its chunk rendered
    /// for it, and the image is rendered. Else nothing is stored.
    pub fn gather(&mut self, chunks: &Vec<Chunk>, parts: &Vec<Vec<Rgb>>) -> (ok: bool)
        ensures
            ok <==> parts_fit(chunks@, parts@, old(self)@.colors.len()),
            final(self)@.width == old(self)@.width,
            final(self)@.height == old(self)@.height,
            final(self)@.colors.len() == old(self)@.colors.len(),
            !ok ==> final(self)@.colors == old(self)@.colors,
            ok ==> final(self)@.rendered(),
            ok ==> forall|i: int, k: int|
                0 <= i < chunks.len() && 0 <= k < parts[i].len() ==> final(self)@.colors[chunks[i].start
                    + k] == Some(#[trigger] parts[i][k]),
    {
        proof {
            use_type_invariant(&*self);
        }
        let n = self.pixels.len();
        if parts.len() != chunks.len() {
            return false;
        }
        let mut fresh: Vec<Pixel> = Vec::new();
        let mut i: usize = 0;
        while i < chunks.len()
            invariant
                i <= chunks.len(),
                parts.len() == chunks.len(),
                n == self.pixels.len(),
                self@.colors == old(self)@.colors,
                self.width == old(self).width,
                self.height == old(self).height,
                fresh.len() <= n,
                fresh.len() == if i == 0 {
                    0
                } else {
                    chunks[i - 1].end as int
                },
                forall|j: int| 0 <= j < i ==> #[trigger] chunk_fits(chunks@, parts@, j),
                forall|j: int|
                    0 <= j < i ==> (#[trigger] chunks[j]).start + parts[j].len() <= fresh.len(),
                forall|p: int|
                    0 <= p < fresh.len() ==> {
                        &&& (#[trigger] fresh[p]).x == self.pixels[p].x
                        &&& fresh[p].y == self.pixels[p].y
                        &&& fresh[p].color is Some
                    },
                forall|j: int, k: int|
                    0 <= j < i && 0 <= k < parts[j].len() ==> fresh[chunks[j].start + k].color
                        == Some(#[trigger] parts[j][k]),
            decreases chunks.len() - i,
        {
            let chunk = chunks[i];
            let part = &parts[i];
            if chunk.start != fresh.len() || chunk.end < chunk.start || chunk.end > n || part.len()
                != chunk.end - chunk.start {
                proof {
                    if parts_fit(chunks@, parts@, n as nat) {
                        assert(chunk_fits(chunks@, parts@, i as int));
                        lemma_parts_within(chunks@, parts@, n as nat, i as int);
                    }
                }
                return false;
            }
            assert(chunk_fits(chunks@, parts@, i as int));
            let mut k: usize = 0;
            while k < part.len()
                invariant
                    k <= part.len(),
                    i < chunks.len(),
                    parts.len() == chunks.len(),
                    chunk == chunks[i as int],
                    part == parts[i as int],
                    part.len() == chunk.end - chunk.start,
                    chunk.end <= n,
                    n == self.pixels.len(),
                    fresh.len() == chunk.start + k,
                    forall|j: int|
                        0 <= j < i ==> (#[trigger] chunks[j]).start + parts[j].len() <= chunk.start,
                    forall|p: int|
                        0 <= p < fresh.len() ==> {
                            &&& (#[trigger] fresh[p]).x == self.pixels[p].x
                            &&& fresh[p].y == self.pixels[p].y
                            &&& fresh[p].color is Some
                        },
                    forall|j: int, m: int|
                        0 <= j < i && 0 <= m < parts[j].len() ==> fresh[chunks[j].start + m].color
                            == Some(#[trigger] parts[j][m]),
                    forall|m: int|
                        0 <= m < k ==> fresh[chunk.start + m].color == Some(#[trigger] part[m]),
                decreases part.len() - k,
            {
                let mut p = self.pixels[chunk.start + k];
                p.color = Some(part[k]);
                fresh.push(p);
                k = k + 1;
            }
            i = i + 1;
        }
        if fresh.len() != n {
            return false;
        }
        self.pixels = fresh;
        true
    }

    /// Writes the image as text. Every pixel has to be rendered.
    pub fn to_ppm(&self) -> (text: Vec<u8>)
        requires
            self@.rendered(),
        ensures
            text@ == ppm_text(self@.width, self@.height, self@.triples()),
            holdable(self@.width, self@.height, self@.triples()),
    {
        proof {
            use_type_invariant(self);
        }
        let mut text: Vec<u8> = Vec::new();
        push_header(&mut text, self.width, self.height);
        let ghost triples = self@.triples();
        let mut i: usize = 0;
        assert(body(triples.take(0)) =~= Seq::<u8>::empty());
        while i < self.pixels.len()
            invariant
                i <= self.pixels.len(),
                self@.rendered(),
                triples == self@.triples(),
                text@ == header(self.width as nat, self.height as nat) + body(triples.take(i as int)),
            decreases self.pixels.len() - i,
        {
            assert(self@.colors[i as int] is Some);
            match self.pixels[i].color {
                Some(c) => {
                    proof {
                        assert(triples.take(i + 1).drop_last() =~= triples.take(i as int));
                        assert(triples.take(i + 1).last() == c);
                    }
                    push_line(&mut text, c);
                    assert(text@ =~= header(self.width as nat, self.height as nat) + body(
                        triples.take(i + 1),
                    ));
                },
                None => {},
            }
            i = i + 1;
        }
        assert(triples.take(i as int) =~= triples);
        text
    }

    /// Reads an image from its text. The text has to be what `to_ppm`
    /// writes for some image; any other text is refused.
    pub fn from_ppm(text: &Vec<u8>) -> (r: Option<Image>)
        ensures
            match r {
                Some(img) => img@.rendered() && parse_spec(text@) == Some(
                    (img@.width, img@.height, img@.triples()),
                ),
                None => parse_spec(text@) is None,
            },
    {
        match parse_ppm(text) {
            Some((width, height, colors)) => {
                proof {
                    lemma_text_of_parse(text@);
                }
                let mut img = Image::new(width, height);
                let stored = img.store(0, &colors);
                assert(stored);
                assert(img@.triples() =~= colors@);
                Some(img)
            },
            None => None,
        }
    }

    /// Whether every pixel has been rendered.
    pub fn is_rendered(&self) -> (r: bool)
        ensures
            r == self@.rendered(),
    {
        let mut i: usize = 0;
        while i < self.pixels.len()
            invariant
                i <= self.pixels.len(),
                forall|j: int| 0 <= j < i ==> (#[trigger] self@.colors[j]) is Some,
            decreases self.pixels.len() - i,
        {
            if self.pixels[i].color.is_none() {
                assert(self@.colors[i as int] is None);
                return false;
            }
            i = i + 1;
        }
        true
    }
}

} // verus!
