use crate::program::{Bit, Dir, State};
use vstd::prelude::*;

verus! {

/// The half-width of a window: how many cells it shows on each side of the
/// head. A usable radius lies between 1 and 31.
#[derive(Copy, Clone, Eq, PartialEq, Debug, Structural)]
pub struct Radius(pub u8);

/// The largest radius whose window still fits the packed form.
pub const MAX_RADIUS: u8 = 31;

/// Bit `i` of `x`, for `i` below 64.
pub open spec fn bit_at(x: u64, i: int) -> bool {
    (x >> (i as u64)) & 1 == 1
}

/// The cells of one edge of a window, packed: cell `i`, counted from the
/// left, is bit `i`.
#[derive(Copy, Clone, Eq, PartialEq, Debug, Hash, PartialOrd, Ord, Structural)]
pub struct NGram(pub u32);

/// A window of `2 * radius + 1` tape cells centred on the head, with the
/// control state. Cell `i`, counted from the left, is bit `i` of
/// `nearby_bits`; the cell under the head is bit `radius`.
#[derive(Copy, Clone, Eq, PartialEq, Debug, Hash, PartialOrd, Ord, Structural)]
pub struct LocalContext {
    pub state: State,
    pub nearby_bits: u64,
}

impl Radius {
    /// The radius lies in the usable range.
    pub open spec fn wf(self) -> bool {
        1 <= self.0 <= MAX_RADIUS
    }

    /// The number of cells in a window.
    pub open spec fn width(self) -> int {
        2 * self.0 + 1
    }

    /// A radius of `value` cells; `None` where `value` is out of range.
    pub fn new(value: u8) -> (r: Option<Radius>)
        ensures
            r is Some <==> 1 <= value <= MAX_RADIUS,
            r is Some ==> r.unwrap().0 == value,
    {
        if 1 <= value && value <= MAX_RADIUS {
            Some(Radius(value))
        } else {
            None
        }
    }
}

impl NGram {
    /// No bit is set beyond the `radius` cells.
    pub open spec fn wf(self, radius: Radius) -> bool {
        (self.0 as u64) >> (radius.0 as u64) == 0
    }

    /// The cells, from left to right.
    pub open spec fn cells(self, radius: Radius) -> Seq<bool> {
        Seq::new(radius.0 as nat, |i: int| bit_at(self.0 as u64, i))
    }
}

proof fn lemma_push_left(old_bits: u64, b: u64, w: u64, i: u64)
    by (bit_vector)
    requires
        w <= 63,
        old_bits >> w == 0,
        b <= 1,
        i < w,
    ensures
        (((old_bits << 1) | b) & !(1u64 << w)) >> w == 0,
        i == 0 ==> (((((old_bits << 1) | b) & !(1u64 << w)) >> i) & 1 == 1) == (b == 1),
        i > 0 ==> (((((old_bits << 1) | b) & !(1u64 << w)) >> i) & 1 == 1) == ((old_bits >> (
        (i - 1) as u64)) & 1 == 1),
{
}

proof fn lemma_push_right(old_bits: u64, b: u64, w: u64, i: u64)
    by (bit_vector)
    requires
        1 <= w <= 63,
        old_bits >> w == 0,
        b == 0 || b == 1u64 << ((w - 1) as u64),
        i < w,
    ensures
        ((old_bits >> 1) | b) >> w == 0,
        i == w - 1 ==> ((((old_bits >> 1) | b) >> i) & 1 == 1) == (b != 0),
        i < w - 1 ==> ((((old_bits >> 1) | b) >> i) & 1 == 1) == ((old_bits >> ((i + 1) as u64))
            & 1 == 1),
{
}

proof fn lemma_write_center(old_bits: u64, b: u64, r: u64, w: u64, i: u64)
    by (bit_vector)
    requires
        r < w <= 63,
        old_bits >> w == 0,
        b == 0 || b == 1u64 << r,
        i < w,
    ensures
        ((old_bits & !(1u64 << r)) | b) >> w == 0,
        i == r ==> ((((old_bits & !(1u64 << r)) | b) >> i) & 1 == 1) == (b != 0),
        i != r ==> ((((old_bits & !(1u64 << r)) | b) >> i) & 1 == 1) == ((old_bits >> i) & 1
            == 1),
{
}

proof fn lemma_get_center(bits: u64, r: u64)
    by (bit_vector)
    requires
        r < 63,
    ensures
        ((bits & (1u64 << r)) != 0) == ((bits >> r) & 1 == 1),
{
}

proof fn lemma_get_left(bits: u64, r: u64, i: u64)
    by (bit_vector)
    requires
        1 <= r <= 31,
        i < r,
    ensures
        (bits & (((1u64 << r) - 1) as u64)) <= 0xffff_ffff,
        (bits & (((1u64 << r) - 1) as u64)) >> r == 0,
        (((bits & (((1u64 << r) - 1) as u64)) >> i) & 1 == 1) == ((bits >> i) & 1 == 1),
{
}

proof fn lemma_get_right(bits: u64, r: u64, i: u64)
    by (bit_vector)
    requires
        1 <= r <= 31,
        i < r,
    ensures
        ((bits >> ((r + 1) as u64)) & (((1u64 << r) - 1) as u64)) <= 0xffff_ffff,
        ((bits >> ((r + 1) as u64)) & (((1u64 << r) - 1) as u64)) >> r == 0,
        ((((bits >> ((r + 1) as u64)) & (((1u64 << r) - 1) as u64)) >> i) & 1 == 1) == ((bits >> (
        (i + r + 1) as u64)) & 1 == 1),
{
}

proof fn lemma_zero_bits(w: u64, i: u64)
    by (bit_vector)
    requires
        w <= 63,
        i < 64,
    ensures
        0u64 >> w == 0,
        !((0u64 >> i) & 1 == 1),
{
}

proof fn lemma_halved(a: u64, w: u64, i: u64)
    by (bit_vector)
    requires
        1 <= w <= 63,
        a >> w == 0,
        i < 63,
    ensures
        (a >> 1) >> ((w - 1) as u64) == 0,
        (((a >> 1) >> i) & 1 == 1) == ((a >> ((i + 1) as u64)) & 1 == 1),
{
}

proof fn lemma_low_bit_decides(a: u64, b: u64)
    by (bit_vector)
    requires
        a >> 1 == b >> 1,
        ((a >> 0) & 1 == 1) == ((b >> 0) & 1 == 1),
    ensures
        a == b,
{
}

/// Two numbers that fit `w` bits and agree in each of them are equal.
pub proof fn lemma_bits_determine(a: u64, b: u64, w: nat)
    requires
        w <= 63,
        a >> (w as u64) == 0,
        b >> (w as u64) == 0,
        forall|i: int| 0 <= i < w ==> #[trigger] bit_at(a, i) == bit_at(b, i),
    ensures
        a == b,
    decreases w,
{
    if w == 0 {
        assert(a == 0) by (bit_vector)
            requires
                a >> 0 == 0,
        ;
        assert(b == 0) by (bit_vector)
            requires
                b >> 0 == 0,
        ;
    } else {
        lemma_halved(a, w as u64, 0);
        lemma_halved(b, w as u64, 0);
        assert forall|i: int| 0 <= i < w - 1 implies #[trigger] bit_at(a >> 1, i) == bit_at(
            b >> 1,
            i,
        ) by {
            lemma_halved(a, w as u64, i as u64);
            lemma_halved(b, w as u64, i as u64);
            assert(bit_at(a, i + 1) == bit_at(b, i + 1));
        }
        lemma_bits_determine(a >> 1, b >> 1, (w - 1) as nat);
        assert(bit_at(a, 0) == bit_at(b, 0));
        lemma_low_bit_decides(a, b);
    }
}

/// An edge pattern that fits the radius is determined by its cells.
pub proof fn lemma_ngram_determined(a: NGram, b: NGram, radius: Radius)
    requires
        radius.wf(),
        a.wf(radius),
        b.wf(radius),
        a.cells(radius) == b.cells(radius),
    ensures
        a == b,
{
    assert forall|i: int| 0 <= i < radius.0 implies #[trigger] bit_at(a.0 as u64, i) == bit_at(
        b.0 as u64,
        i,
    ) by {
        assert(a.cells(radius)[i] == bit_at(a.0 as u64, i));
        assert(b.cells(radius)[i] == bit_at(b.0 as u64, i));
    }
    lemma_bits_determine(a.0 as u64, b.0 as u64, radius.0 as nat);
}

/// A window that fits the radius is determined by its state and its cells.
pub proof fn lemma_context_determined(a: LocalContext, b: LocalContext, radius: Radius)
    requires
        radius.wf(),
        a.wf(radius),
        b.wf(radius),
        a.state == b.state,
        a.window(radius) == b.window(radius),
    ensures
        a == b,
{
    assert forall|i: int| 0 <= i < radius.width() implies #[trigger] bit_at(a.nearby_bits, i)
        == bit_at(b.nearby_bits, i) by {
        assert(a.window(radius)[i] == bit_at(a.nearby_bits, i));
        assert(b.window(radius)[i] == bit_at(b.nearby_bits, i));
    }
    lemma_bits_determine(a.nearby_bits, b.nearby_bits, radius.width() as nat);
}

/// The packed zero is the blank window, and the blank edge.
pub proof fn lemma_blank(radius: Radius)
    requires
        radius.wf(),
    ensures
        (LocalContext { state: State(1), nearby_bits: 0 }).wf(radius),
        (LocalContext { state: State(1), nearby_bits: 0 }).window(radius) == Seq::new(
            radius.width() as nat,
            |i: int| false,
        ),
        NGram(0).wf(radius),
        NGram(0).cells(radius) == Seq::new(radius.0 as nat, |i: int| false),
{
    let c = LocalContext { state: State(1), nearby_bits: 0 };
    lemma_zero_bits(radius.width() as u64, 0);
    lemma_zero_bits(radius.0 as u64, 0);
    assert forall|i: int| 0 <= i < 64 implies !#[trigger] bit_at(0u64, i) by {
        lemma_zero_bits(0, i as u64);
    }
    assert(c.window(radius) =~= Seq::new(radius.width() as nat, |i: int| false));
    assert(NGram(0).cells(radius) =~= Seq::new(radius.0 as nat, |i: int| false));
}

/// What `with_center` means for the cells: the one under the head is
/// replaced, the others stay, and the result fits the radius.
pub proof fn lemma_with_center(c: LocalContext, bit: Bit, state: State, radius: Radius)
    requires
        radius.wf(),
        c.wf(radius),
    ensures
        c.with_center(bit, state, radius).wf(radius),
        c.with_center(bit, state, radius).state == state,
        c.with_center(bit, state, radius).window(radius) == c.window(radius).update(
            radius.0 as int,
            bit.0,
        ),
{
    let r = c.with_center(bit, state, radius);
    let k: u64 = radius.0 as u64;
    let w: u64 = (2 * k + 1) as u64;
    let b: u64 = if bit.0 { 1u64 << k } else { 0 };
    assert(1u64 << k != 0) by (bit_vector)
        requires
            k <= 31,
    ;
    lemma_write_center(c.nearby_bits, b, k, w, 0);
    assert forall|i: int| 0 <= i < w implies bit_at(r.nearby_bits, i) == (if i == k {
        bit.0
    } else {
        bit_at(c.nearby_bits, i)
    }) by {
        lemma_write_center(c.nearby_bits, b, k, w, i as u64);
    }
    assert(r.window(radius) =~= c.window(radius).update(radius.0 as int, bit.0));
}

/// What `pushed` means for the cells: they move by one place away from
/// `dir`, the last one on that way is lost and `bit` takes the free place;
/// the result fits the radius.
pub proof fn lemma_pushed(c: LocalContext, dir: Dir, bit: Bit, radius: Radius)
    requires
        radius.wf(),
        c.wf(radius),
    ensures
        c.pushed(dir, bit, radius).wf(radius),
        c.pushed(dir, bit, radius).state == c.state,
        c.pushed(dir, bit, radius).window(radius) == shifted(c.window(radius), dir, bit.0),
{
    let r = c.pushed(dir, bit, radius);
    let w: u64 = (2 * radius.0 + 1) as u64;
    match dir {
        Dir::Left => {
            let b: u64 = if bit.0 { 1 } else { 0 };
            lemma_push_left(c.nearby_bits, b, w, 0);
            assert forall|i: int| 0 <= i < w implies bit_at(r.nearby_bits, i) == (if i == 0 {
                bit.0
            } else {
                bit_at(c.nearby_bits, i - 1)
            }) by {
                lemma_push_left(c.nearby_bits, b, w, i as u64);
            }
            assert(r.window(radius) =~= seq![bit.0] + c.window(radius).drop_last());
        },
        Dir::Right => {
            let b: u64 = if bit.0 { 1u64 << ((w - 1) as u64) } else { 0 };
            assert(1u64 << ((w - 1) as u64) != 0) by (bit_vector)
                requires
                    1 <= w <= 63,
            ;
            lemma_push_right(c.nearby_bits, b, w, 0);
            assert forall|i: int| 0 <= i < w implies bit_at(r.nearby_bits, i) == (if i == w - 1 {
                bit.0
            } else {
                bit_at(c.nearby_bits, i + 1)
            }) by {
                lemma_push_right(c.nearby_bits, b, w, i as u64);
            }
            assert(r.window(radius) =~= c.window(radius).drop_first().push(bit.0));
        },
    }
}

/// What `center` means for the cells: it is the middle one.
pub proof fn lemma_center(c: LocalContext, radius: Radius)
    requires
        radius.wf(),
    ensures
        c.center(radius).0 == c.window(radius)[radius.0 as int],
{
    lemma_get_center(c.nearby_bits, radius.0 as u64);
}

/// What `ngram` means for the cells: it holds those on the side `dir` of the
/// head, in their order, and fits the radius.
pub proof fn lemma_ngram(c: LocalContext, dir: Dir, radius: Radius)
    requires
        radius.wf(),
    ensures
        c.ngram(dir, radius).wf(radius),
        c.ngram(dir, radius).cells(radius) == edge(c.window(radius), dir),
{
    let k: u64 = radius.0 as u64;
    let g = c.ngram(dir, radius);
    assert(1u64 << k >= 1) by (bit_vector)
        requires
            k <= 31,
    ;
    match dir {
        Dir::Left => {
            let bits: u64 = c.nearby_bits & (((1u64 << k) - 1) as u64);
            lemma_get_left(c.nearby_bits, k, 0);
            assert forall|i: int| 0 <= i < k implies bit_at(bits, i) == bit_at(
                c.nearby_bits,
                i,
            ) by {
                lemma_get_left(c.nearby_bits, k, i as u64);
            }
            assert(g.0 as u64 == bits);
            assert(g.cells(radius) =~= c.window(radius).take(radius.0 as int));
        },
        Dir::Right => {
            let bits: u64 = (c.nearby_bits >> ((k + 1) as u64)) & (((1u64 << k) - 1) as u64);
            lemma_get_right(c.nearby_bits, k, 0);
            assert forall|i: int| 0 <= i < k implies bit_at(bits, i) == bit_at(
                c.nearby_bits,
                i + k + 1,
            ) by {
                lemma_get_right(c.nearby_bits, k, i as u64);
            }
            assert(g.0 as u64 == bits);
            assert(g.cells(radius) =~= c.window(radius).skip(radius.0 + 1));
        },
    }
}

impl LocalContext {
    /// No bit is set beyond the window.
    pub open spec fn wf(self, radius: Radius) -> bool {
        self.nearby_bits >> ((2 * radius.0 + 1) as u64) == 0
    }

    /// The cells of the window, from left to right.
    pub open spec fn window(self, radius: Radius) -> Seq<bool> {
        Seq::new(radius.width() as nat, |i: int| bit_at(self.nearby_bits, i))
    }

    /// The cell under the head.
    pub open spec fn center(self, radius: Radius) -> Bit {
        Bit(self.nearby_bits & (1u64 << (radius.0 as u64)) != 0)
    }

    /// This context with `bit` under the head and in the state `state`.
    pub open spec fn with_center(self, bit: Bit, state: State, radius: Radius) -> LocalContext {
        LocalContext {
            state,
            nearby_bits: (self.nearby_bits & !(1u64 << (radius.0 as u64))) | (if bit.0 {
                1u64 << (radius.0 as u64)
            } else {
                0
            }),
        }
    }

    /// This context after the head moved one cell towards `dir`, where `bit`
    /// came into view.
    pub open spec fn pushed(self, dir: Dir, bit: Bit, radius: Radius) -> LocalContext {
        match dir {
            Dir::Left => LocalContext {
                state: self.state,
                nearby_bits: ((self.nearby_bits << 1) | (if bit.0 { 1u64 } else { 0 })) & !(1u64 << (
                radius.width() as u64)),
            },
            Dir::Right => LocalContext {
                state: self.state,
                nearby_bits: (self.nearby_bits >> 1) | (if bit.0 {
                    1u64 << ((2 * radius.0) as u64)
                } else {
                    0
                }),
            },
        }
    }

    /// The cells on the side `dir` of the head, packed.
    pub open spec fn ngram(self, dir: Dir, radius: Radius) -> NGram {
        match dir {
            Dir::Left => NGram(
                (self.nearby_bits & (((1u64 << (radius.0 as u64)) - 1) as u64)) as u32,
            ),
            Dir::Right => NGram(
                ((self.nearby_bits >> ((radius.0 + 1) as u64)) & (((1u64 << (radius.0 as u64))
                    - 1) as u64)) as u32,
            ),
        }
    }

    /// Moves the window one cell to the left: `bit` comes in at the left end
    /// and the rightmost cell is lost.
    pub fn push_left(self, bit: Bit, radius: Radius) -> (r: Self)
        requires
            radius.wf(),
            self.wf(radius),
        ensures
            r == self.pushed(Dir::Left, bit, radius),
            r.wf(radius),
            r.state == self.state,
            r.window(radius) == seq![bit.0] + self.window(radius).drop_last(),
    {
        proof {
            lemma_pushed(self, Dir::Left, bit, radius);
        }
        let b: u64 = if bit.0 { 1 } else { 0 };
        let w: u64 = radius.0 as u64 * 2 + 1;
        LocalContext { state: self.state, nearby_bits: (self.nearby_bits << 1 | b) & !(1u64 << w) }
    }

    /// Moves the window one cell to the right: `bit` comes in at the right
    /// end and the leftmost cell is lost.
    pub fn push_right(self, bit: Bit, radius: Radius) -> (r: Self)
        requires
            radius.wf(),
            self.wf(radius),
        ensures
            r == self.pushed(Dir::Right, bit, radius),
            r.wf(radius),
            r.state == self.state,
            r.window(radius) == self.window(radius).drop_first().push(bit.0),
    {
        proof {
            lemma_pushed(self, Dir::Right, bit, radius);
        }
        let b: u64 = if bit.0 { 1u64 << (2 * (radius.0 as u64)) } else { 0 };
        LocalContext { state: self.state, nearby_bits: self.nearby_bits >> 1 | b }
    }

    /// Moves the window one cell in the direction `dir`, where `bit` comes
    /// into view.
    pub fn push(self, dir: Dir, bit: Bit, radius: Radius) -> (r: Self)
        requires
            radius.wf(),
            self.wf(radius),
        ensures
            r == self.pushed(dir, bit, radius),
            r.wf(radius),
            r.state == self.state,
            r.window(radius) == shifted(self.window(radius), dir, bit.0),
    {
        match dir {
            Dir::Left => self.push_left(bit, radius),
            Dir::Right => self.push_right(bit, radius),
        }
    }

    /// Writes `bit` under the head and takes the state `state`.
    pub fn write_center(self, bit: Bit, state: State, radius: Radius) -> (r: Self)
        requires
            radius.wf(),
            self.wf(radius),
        ensures
            r == self.with_center(bit, state, radius),
            r.wf(radius),
            r.state == state,
            r.window(radius) == self.window(radius).update(radius.0 as int, bit.0),
    {
        proof {
            lemma_with_center(self, bit, state, radius);
        }
        let k: u64 = radius.0 as u64;
        let b: u64 = if bit.0 { 1u64 << k } else { 0 };
        LocalContext { state, nearby_bits: (self.nearby_bits & !(1u64 << k)) | b }
    }

    /// The cell under the head.
    pub fn get_center(self, radius: Radius) -> (r: Bit)
        requires
            radius.wf(),
        ensures
            r == self.center(radius),
            r.0 == self.window(radius)[radius.0 as int],
    {
        proof {
            lemma_center(self, radius);
        }
        Bit((self.nearby_bits & (1u64 << (radius.0 as u64))) != 0)
    }

    /// The `radius` cells to the left of the head.
    pub fn get_left(self, radius: Radius) -> (r: NGram)
        requires
            radius.wf(),
        ensures
            r == self.ngram(Dir::Left, radius),
            r.wf(radius),
            r.cells(radius) == self.window(radius).take(radius.0 as int),
    {
        proof {
            lemma_ngram(self, Dir::Left, radius);
        }
        let k: u64 = radius.0 as u64;
        assert(1u64 << k >= 1) by (bit_vector)
            requires
                k <= 31,
        ;
        NGram((self.nearby_bits & ((1u64 << k) - 1)) as u32)
    }

    /// The `radius` cells to the right of the head.
    pub fn get_right(self, radius: Radius) -> (r: NGram)
        requires
            radius.wf(),
        ensures
            r == self.ngram(Dir::Right, radius),
            r.wf(radius),
            r.cells(radius) == self.window(radius).skip(radius.0 + 1),
    {
        proof {
            lemma_ngram(self, Dir::Right, radius);
        }
        let k: u64 = radius.0 as u64;
        assert(1u64 << k >= 1) by (bit_vector)
            requires
                k <= 31,
        ;
        NGram(((self.nearby_bits >> (k + 1)) & ((1u64 << k) - 1)) as u32)
    }

    /// The `radius` cells on the side `dir` of the head.
    pub fn get(self, dir: Dir, radius: Radius) -> (r: NGram)
        requires
            radius.wf(),
        ensures
            r == self.ngram(dir, radius),
            r.wf(radius),
            r.cells(radius) == edge(self.window(radius), dir),
    {
        match dir {
            Dir::Left => self.get_left(radius),
            Dir::Right => self.get_right(radius),
        }
    }
}

/// A window after the head moved one cell towards `dir`, where `bit` came
/// into view; the cell at the other end is lost.
pub open spec fn shifted(window: Seq<bool>, dir: Dir, bit: bool) -> Seq<bool> {
    match dir {
        Dir::Left => seq![bit] + window.drop_last(),
        Dir::Right => window.drop_first().push(bit),
    }
}

/// The cells of a window on the side `dir` of the head: all that lie
/// strictly to its left or strictly to its right.
pub open spec fn edge(window: Seq<bool>, dir: Dir) -> Seq<bool> {
    match dir {
        Dir::Left => window.take(window.len() as int / 2),
        Dir::Right => window.skip(window.len() as int / 2 + 1),
    }
}

/// The digit that shows a cell.
pub open spec fn digit_of(cell: bool) -> char {
    if cell {
        '1'
    } else {
        '0'
    }
}

/// The letter that marks the head in a window's text: `A` for the first
/// state, and onwards from there.
pub open spec fn head_letter(state: State) -> char {
    ((64 + state.0) as u8) as char
}

impl NGram {
    /// The cells as digits, left to right.
    pub fn render(self, radius: Radius) -> (text: Vec<char>)
        requires
            radius.wf(),
        ensures
            text@ == self.cells(radius).map_values(|cell: bool| digit_of(cell)),
    {
        let mut text: Vec<char> = Vec::new();
        for i in 0..radius.0
            invariant
                radius.wf(),
                text@ == self.cells(radius).take(i as int).map_values(|cell: bool| digit_of(cell)),
        {
            let one: u32 = 1u32 << (i as u32);
            assert(((self.0 & one) != 0) == bit_at(self.0 as u64, i as int)) by {
                let v = self.0;
                let k = i as u32;
                assert(((v & (1u32 << k)) != 0) == (((v as u64) >> (k as u64)) & 1 == 1))
                    by (bit_vector)
                    requires
                        k < 32,
                ;
            }
            if (self.0 & one) != 0 {
                text.push('1');
            } else {
                text.push('0');
            }
            assert(text@ =~= self.cells(radius).take(i + 1).map_values(
                |cell: bool| digit_of(cell),
            ));
        }
        assert(self.cells(radius).take(radius.0 as int) =~= self.cells(radius));
        text
    }
}

impl LocalContext {
    /// The window as text: the cells as digits, left to right, with the
    /// head's cell in square brackets behind the state's letter.
    pub fn render(self, radius: Radius) -> (text: Vec<char>)
        requires
            radius.wf(),
            self.state.0 <= 191,
        ensures
            text@ == self.window(radius).take(radius.0 as int).map_values(
                |cell: bool| digit_of(cell),
            ) + seq!['[', head_letter(self.state), digit_of(self.window(radius)[radius.0 as int]), ']']
                + self.window(radius).skip(radius.0 + 1).map_values(|cell: bool| digit_of(cell)),
    {
        let mut text: Vec<char> = Vec::new();
        let ghost shown = self.window(radius).map_values(|cell: bool| digit_of(cell));
        let ghost head = seq!['[', head_letter(self.state), shown[radius.0 as int], ']'];
        for i in 0..2 * radius.0 + 1
            invariant
                radius.wf(),
                self.state.0 <= 191,
                shown == self.window(radius).map_values(|cell: bool| digit_of(cell)),
                head == seq!['[', head_letter(self.state), shown[radius.0 as int], ']'],
                i <= radius.0 ==> text@ == shown.take(i as int),
                i > radius.0 ==> text@ == shown.take(radius.0 as int) + head + shown.subrange(
                    radius.0 + 1,
                    i as int,
                ),
        {
            let ghost before = text@;
            if i == radius.0 {
                text.push('[');
                text.push((64 + self.state.0) as char);
            }
            let one: u64 = 1u64 << (i as u64);
            assert(((self.nearby_bits & one) != 0) == bit_at(self.nearby_bits, i as int)) by {
                let v = self.nearby_bits;
                let k = i as u64;
                assert(((v & (1u64 << k)) != 0) == ((v >> k) & 1 == 1)) by (bit_vector)
                    requires
                        k < 64,
                ;
            }
            if (self.nearby_bits & one) != 0 {
                text.push('1');
            } else {
                text.push('0');
            }
            if i == radius.0 {
                text.push(']');
            }
            proof {
                if i < radius.0 {
                    assert(text@ =~= shown.take(i + 1));
                } else if i == radius.0 {
                    assert(text@ =~= shown.take(radius.0 as int) + head + shown.subrange(
                        radius.0 + 1,
                        i + 1,
                    ));
                } else {
                    assert(text@ =~= shown.take(radius.0 as int) + head + shown.subrange(
                        radius.0 + 1,
                        i + 1,
                    ));
                }
            }
        }
        assert(text@ =~= self.window(radius).take(radius.0 as int).map_values(
            |cell: bool| digit_of(cell),
        ) + seq!['[', head_letter(self.state), digit_of(self.window(radius)[radius.0 as int]), ']']
            + self.window(radius).skip(radius.0 + 1).map_values(|cell: bool| digit_of(cell)));
        text
    }
}

} // verus!
