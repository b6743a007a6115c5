//! The text console: an 80-column buffer of 16-bit cells (attribute and
//! character) that scrolls up when full, and number formatting for it.
use vstd::prelude::*;
use vstd::string::StringSliceAdditionalSpecFns;

verus! {

pub const WIDTH: usize = 80;

pub const HEIGHT: usize = 24;

pub const CELLS: usize = 1920;

/// `cells` with `[start, start + len)` set to `v`.
pub open spec fn fill(cells: Seq<u16>, start: int, len: int, v: u16) -> Seq<u16> {
    Seq::new(cells.len(), |i: int| if start <= i < start + len { v } else { cells[i] })
}

/// `cells` moved up one line, with a last line of `v`.
pub open spec fn scrolled(cells: Seq<u16>, v: u16) -> Seq<u16> {
    Seq::new(CELLS as nat, |i: int| if i < (CELLS - WIDTH) as int { cells[i + WIDTH as int] } else { v })
}

/// The cells and cursor after writing byte `c` in colour `color`: a newline
/// blanks the rest of the line; any other byte takes the next cell; a full
/// screen scrolls up one line.
pub open spec fn put(cells: Seq<u16>, pos: int, color: u16, c: u8) -> (Seq<u16>, int) {
    let (c1, p1) = if c == 10 {
        let count = WIDTH as int - pos % (WIDTH as int);
        (fill(cells, pos, count, color), pos + count)
    } else {
        (cells.update(pos, (c as u16) | color), pos + 1)
    };
    if p1 >= CELLS as int {
        (scrolled(c1, color), (CELLS - WIDTH) as int)
    } else {
        (c1, p1)
    }
}

/// The cells and cursor after writing every byte of `bytes`.
pub open spec fn put_all(cells: Seq<u16>, pos: int, color: u16, bytes: Seq<u8>) -> (Seq<u16>, int)
    decreases bytes.len(),
{
    if bytes.len() == 0 {
        (cells, pos)
    } else {
        let (c1, p1) = put_all(cells, pos, color, bytes.drop_last());
        put(c1, p1, color, bytes.last())
    }
}

/// Writing `a` then `b` is writing `a + b`.
pub proof fn lemma_put_all_concat(cells: Seq<u16>, pos: int, color: u16, a: Seq<u8>, b: Seq<u8>)
    ensures
        put_all(cells, pos, color, a + b) == ({
            let (c1, p1) = put_all(cells, pos, color, a);
            put_all(c1, p1, color, b)
        }),
    decreases b.len(),
{
    if b.len() == 0 {
        assert(a + b =~= a);
    } else {
        lemma_put_all_concat(cells, pos, color, a, b.drop_last());
        assert((a + b).drop_last() =~= a + b.drop_last());
        assert((a + b).last() == b.last());
    }
}

/// `x` in decimal, with a leading minus sign when negative.
pub open spec fn formatted_signed(x: i64) -> Seq<u8> {
    if x < 0 {
        seq![45u8] + formatted(0, false, 10, false, (-x) as nat)
    } else {
        formatted(0, false, 10, false, x as nat)
    }
}

/// The digits of `num` in `base`, most significant first, as ASCII.
pub open spec fn digits(num: nat, base: nat) -> Seq<u8>
    decreases num,
    via digits_decreases
{
    if base < 2 {
        Seq::empty()
    } else if num < base {
        seq![digit_char(num)]
    } else {
        digits(num / base, base).push(digit_char(num % base))
    }
}

/// Dividing by the base makes the number smaller.
#[via_fn]
proof fn digits_decreases(num: nat, base: nat) {
    if base >= 2 && num >= base {
        assert(num / base < num) by (nonlinear_arith)
            requires
                base >= 2,
                num >= base,
        ;
    }
}

pub open spec fn digit_char(d: nat) -> u8 {
    if d < 10 {
        (48 + d) as u8
    } else {
        (87 + d) as u8
    }
}

/// `num` written in `base`, after "0x" when `show_base` asks for it in base
/// 16, padded on the left to `width` with zeros or spaces.
pub open spec fn formatted(width: nat, leading_zero: bool, base: nat, show_base: bool, num: nat) -> Seq<u8> {
    let d = digits(num, base);
    let prefix: Seq<u8> = if show_base && base == 16 { seq![48u8, 120u8] } else { Seq::empty() };
    let pad: Seq<u8> = if d.len() < width {
        Seq::new((width - d.len()) as nat, |i: int| if leading_zero { 48u8 } else { 32u8 })
    } else {
        Seq::empty()
    };
    prefix + pad + d
}

fn digit(d: u64) -> (r: u8)
    requires
        d < 16,
    ensures
        r == digit_char(d as nat),
{
    if d < 10 {
        48 + d as u8
    } else {
        87 + d as u8
    }
}

/// Formats `num` as `formatted` describes.
pub fn format_unsigned(width: usize, leading_zero: bool, base: u64, show_base: bool, num: u64) -> (r: Vec<u8>)
    requires
        2 <= base <= 16,
    ensures
        r@ == formatted(width as nat, leading_zero, base as nat, show_base, num as nat),
{
    let mut rev: Vec<u8> = Vec::new();
    let mut n = num;
    let d0 = digit(n % base);
    proof {
        if n < base {
            assert(n % base == n) by (nonlinear_arith)
                requires
                    n < base,
            ;
            assert(digits(n as nat, base as nat) =~= seq![d0]);
        } else {
            assert(digits(n as nat, base as nat) == digits((n / base) as nat, base as nat).push(d0));
        }
        assert(n / base == 0 <==> n < base) by (nonlinear_arith)
            requires
                base >= 2,
        ;
    }
    rev.push(d0);
    n = n / base;
    proof {
        if n == 0 {
            assert(digits(num as nat, base as nat) =~= Seq::<u8>::empty() + rev@.reverse());
        } else {
            assert(digits(num as nat, base as nat) =~= digits(n as nat, base as nat) + rev@.reverse());
        }
    }
    while n > 0
        invariant
            2 <= base <= 16,
            digits(num as nat, base as nat) == (if n == 0 {
                Seq::<u8>::empty()
            } else {
                digits(n as nat, base as nat)
            }) + rev@.reverse(),
        decreases n,
    {
        let d = digit(n % base);
        proof {
            assert(n / base == 0 <==> n < base) by (nonlinear_arith)
                requires
                    base >= 2,
            ;
            if n >= base {
                assert(digits(n as nat, base as nat) == digits((n / base) as nat, base as nat).push(d));
                assert(digits(n as nat, base as nat) + rev@.reverse() =~= digits((n / base) as nat, base as nat) + rev@.push(d).reverse());
            } else {
                assert(n % base == n) by (nonlinear_arith)
                    requires
                        n < base,
                ;
                assert(digits(n as nat, base as nat) =~= seq![d]);
                assert(seq![d] + rev@.reverse() =~= Seq::<u8>::empty() + rev@.push(d).reverse());
            }
        }
        rev.push(d);
        n = n / base;
    }
    let ghost d = rev@.reverse();
    assert(digits(num as nat, base as nat) =~= d);
    let mut out: Vec<u8> = Vec::new();
    if show_base && base == 16 {
        out.push(48);
        out.push(120);
    }
    let ghost pre = out@;
    if rev.len() < width {
        let pad_len = width - rev.len();
        let c: u8 = if leading_zero {
            48
        } else {
            32
        };
        let mut i: usize = 0;
        while i < pad_len
            invariant
                i <= pad_len,
                out@ == pre + Seq::new(i as nat, |j: int| c),
            decreases pad_len - i,
        {
            out.push(c);
            i = i + 1;
            assert(out@ =~= pre + Seq::new(i as nat, |j: int| c));
        }
    }
    let ghost padded = out@;
    let mut k: usize = rev.len();
    while k > 0
        invariant
            k <= rev@.len(),
            out@ == padded + rev@.reverse().subrange(0, rev@.len() - k),
        decreases k,
    {
        k = k - 1;
        out.push(rev[k]);
        assert(out@ =~= padded + rev@.reverse().subrange(0, rev@.len() - k));
    }
    proof {
        assert(rev@.reverse().subrange(0, rev@.len() as int) =~= rev@.reverse());
        let f = formatted(width as nat, leading_zero, base as nat, show_base, num as nat);
        assert(out@ =~= f);
    }
    out
}

/// Formats `x` as `formatted_signed` describes.
pub fn format_signed(x: i64) -> (r: Vec<u8>)
    ensures
        r@ == formatted_signed(x),
{
    if x < 0 {
        let abs = (-(x as i128)) as u64;
        let digits = format_unsigned(0, false, 10, false, abs);
        let mut out: Vec<u8> = Vec::new();
        out.push(45);
        let mut i: usize = 0;
        while i < digits.len()
            invariant
                i <= digits@.len(),
                out@ == seq![45u8] + digits@.subrange(0, i as int),
            decreases digits@.len() - i,
        {
            out.push(digits[i]);
            i = i + 1;
            assert(out@ =~= seq![45u8] + digits@.subrange(0, i as int));
        }
        assert(digits@.subrange(0, digits@.len() as int) =~= digits@);
        out
    } else {
        format_unsigned(0, false, 10, false, x as u64)
    }
}

/// The bytes of a NUL-terminated string: those before the first zero.
pub fn cstr_prefix(bytes: &[u8]) -> (r: Vec<u8>)
    ensures
        r@.len() <= bytes@.len(),
        r@ == bytes@.subrange(0, r@.len() as int),
        r@.len() == bytes@.len() || bytes@[r@.len() as int] == 0,
        forall|j: int| 0 <= j < r@.len() ==> r@[j] != 0,
{
    let mut out: Vec<u8> = Vec::new();
    let mut i: usize = 0;
    while i < bytes.len()
        invariant
            i <= bytes@.len(),
            out@ == bytes@.subrange(0, i as int),
            forall|j: int| 0 <= j < i ==> bytes@[j] != 0,
        decreases bytes@.len() - i,
    {
        if bytes[i] == 0 {
            return out;
        }
        out.push(bytes[i]);
        i = i + 1;
        assert(out@ =~= bytes@.subrange(0, i as int));
    }
    out
}

/// The console's screen buffer and cursor.
pub struct Console {
    pub buffer: Vec<u16>,
    pub position: usize,
    pub color: u16,
    /// Echo to the debug port as well (done by whoever shows the console).
    pub debug: bool,
}

impl Console {
    pub closed spec fn wf(&self) -> bool {
        self.buffer@.len() == CELLS && self.position < CELLS
    }

    pub closed spec fn cells(&self) -> Seq<u16> {
        self.buffer@
    }

    pub closed spec fn spec_position(&self) -> int {
        self.position as int
    }

    pub fn new() -> (c: Console)
        ensures
            c.wf(),
            c.cells() == Seq::new(CELLS as nat, |i: int| 0u16),
            c.spec_position() == 0,
            c.color == 0x0f00,
            c.debug,
    {
        let c = Console { buffer: vec![0u16; 1920], position: 0, color: 0x0f00, debug: true };
        assert(c.cells() =~= Seq::new(CELLS as nat, |i: int| 0u16));
        c
    }

    /// The cell at `position`.
    pub fn cell(&self, position: usize) -> (r: u16)
        requires
            self.wf(),
            position < CELLS,
        ensures
            r == self.cells()[position as int],
    {
        self.buffer[position]
    }

    pub fn position(&self) -> (r: usize)
        ensures
            r == self.spec_position(),
    {
        self.position
    }

    pub fn putchar(&mut self, position: usize, c: u16)
        requires
            old(self).wf(),
            position < CELLS,
        ensures
            final(self).wf(),
            final(self).cells() == old(self).cells().update(position as int, c),
            final(self).spec_position() == old(self).spec_position(),
            final(self).color == old(self).color,
            final(self).debug == old(self).debug,
    {
        self.buffer.set(position, c);
    }

    /// Blanks the screen and puts the cursor home.
    pub fn clear(&mut self)
        requires
            old(self).wf(),
        ensures
            final(self).wf(),
            final(self).cells() == Seq::new(CELLS as nat, |i: int| 0u16),
            final(self).spec_position() == 0,
            final(self).color == old(self).color,
            final(self).debug == old(self).debug,
    {
        let mut i: usize = 0;
        while i < CELLS
            invariant
                self.wf(),
                i <= CELLS,
                self.color == old(self).color,
                self.debug == old(self).debug,
                forall|j: int| 0 <= j < i ==> self.buffer@[j] == 0u16,
            decreases CELLS - i,
        {
            self.putchar(i, 0);
            i = i + 1;
        }
        self.position = 0;
        assert(self.cells() =~= Seq::new(CELLS as nat, |i: int| 0u16));
    }

    /// Sets `length` cells from `start` to blank in the current colour.
    pub fn clear_range(&mut self, start: usize, length: usize)
        requires
            old(self).wf(),
            start + length <= CELLS,
        ensures
            final(self).wf(),
            final(self).cells() == fill(old(self).cells(), start as int, length as int, old(self).color),
            final(self).spec_position() == old(self).spec_position(),
            final(self).color == old(self).color,
            final(self).debug == old(self).debug,
    {
        let mut i: usize = 0;
        while i < length
            invariant
                self.wf(),
                i <= length,
                start + length <= CELLS,
                self.color == old(self).color,
                self.debug == old(self).debug,
                self.position == old(self).position,
                self.buffer@ =~= fill(old(self).buffer@, start as int, i as int, old(self).color),
            decreases length - i,
        {
            let v = self.color;
            self.putchar(start + i, v);
            i = i + 1;
            assert(self.buffer@ =~= fill(old(self).buffer@, start as int, i as int, old(self).color));
        }
    }

    fn clear_eol(&mut self)
        requires
            old(self).wf(),
        ensures
            final(self).buffer@.len() == CELLS,
            final(self).position <= CELLS,
            ({
                let count = WIDTH as int - (old(self).position as int) % (WIDTH as int);
                &&& final(self).buffer@ == fill(old(self).buffer@, old(self).position as int, count, old(self).color)
                &&& final(self).position == old(self).position + count
            }),
            final(self).color == old(self).color,
            final(self).debug == old(self).debug,
    {
        let count = WIDTH - (self.position % WIDTH);
        self.clear_range(self.position, count);
        self.position = self.position + count;
    }

    /// Copies `n` cells from `from` down to `to`.
    fn copy_back(&mut self, to: usize, from: usize, n: usize)
        requires
            old(self).wf(),
            to <= from,
            from + n <= CELLS,
        ensures
            final(self).wf(),
            final(self).buffer@ == Seq::new(CELLS as nat, |i: int| if to <= i < to + n { old(self).buffer@[i - to + from] } else { old(self).buffer@[i] }),
            final(self).position == old(self).position,
            final(self).color == old(self).color,
            final(self).debug == old(self).debug,
    {
        let mut i: usize = 0;
        while i < n
            invariant
                self.wf(),
                i <= n,
                to <= from,
                from + n <= CELLS,
                self.position == old(self).position,
                self.color == old(self).color,
                self.debug == old(self).debug,
                self.buffer@ =~= Seq::new(CELLS as nat, |j: int| if to <= j < to + i { old(self).buffer@[j - to + from] } else { old(self).buffer@[j] }),
            decreases n - i,
        {
            let v = self.buffer[from + i];
            self.buffer.set(to + i, v);
            i = i + 1;
            assert(self.buffer@ =~= Seq::new(CELLS as nat, |j: int| if to <= j < to + i { old(self).buffer@[j - to + from] } else { old(self).buffer@[j] }));
        }
    }

    fn scroll(&mut self)
        requires
            old(self).buffer@.len() == CELLS,
        ensures
            final(self).wf(),
            final(self).buffer@ == scrolled(old(self).buffer@, old(self).color),
            final(self).position == CELLS - WIDTH,
            final(self).color == old(self).color,
            final(self).debug == old(self).debug,
    {
        self.position = 0;
        self.copy_back(0, WIDTH, CELLS - WIDTH);
        self.clear_range(CELLS - WIDTH, WIDTH);
        self.position = CELLS - WIDTH;
        assert(self.buffer@ =~= scrolled(old(self).buffer@, old(self).color));
    }

    /// Writes byte `c` at the cursor.
    pub fn putc(&mut self, c: u8)
        requires
            old(self).wf(),
        ensures
            final(self).wf(),
            (final(self).cells(), final(self).spec_position()) == put(old(self).cells(), old(self).spec_position(), old(self).color, c),
            final(self).color == old(self).color,
            final(self).debug == old(self).debug,
    {
        if c == 10 {
            self.clear_eol();
        } else {
            let v = (c as u16) | self.color;
            self.buffer.set(self.position, v);
            self.position = self.position + 1;
        }
        if self.position >= CELLS {
            self.scroll();
        }
    }

    pub fn newline(&mut self)
        requires
            old(self).wf(),
        ensures
            final(self).wf(),
            (final(self).cells(), final(self).spec_position()) == put(old(self).cells(), old(self).spec_position(), old(self).color, 10),
            final(self).color == old(self).color,
    {
        self.putc(10);
    }

    /// Writes every byte of `bytes`.
    pub fn write_bytes(&mut self, bytes: &[u8])
        requires
            old(self).wf(),
        ensures
            final(self).wf(),
            (final(self).cells(), final(self).spec_position()) == put_all(old(self).cells(), old(self).spec_position(), old(self).color, bytes@),
            final(self).color == old(self).color,
    {
        let mut i: usize = 0;
        while i < bytes.len()
            invariant
                self.wf(),
                i <= bytes@.len(),
                self.color == old(self).color,
                (self.cells(), self.spec_position()) == put_all(old(self).cells(), old(self).spec_position(), old(self).color, bytes@.subrange(0, i as int)),
            decreases bytes@.len() - i,
        {
            self.putc(bytes[i]);
            proof {
                assert(bytes@.subrange(0, i + 1).drop_last() =~= bytes@.subrange(0, i as int));
            }
            i = i + 1;
        }
        assert(bytes@.subrange(0, bytes@.len() as int) =~= bytes@);
    }

    pub fn write(&mut self, string: &str)
        requires
            old(self).wf(),
        ensures
            final(self).wf(),
            final(self).color == old(self).color,
            (final(self).cells(), final(self).spec_position()) == put_all(old(self).cells(), old(self).spec_position(), old(self).color, string.spec_bytes()),
    {
        self.write_bytes(string.as_bytes());
    }

    /// Writes `num` in `base` as `formatted` describes.
    pub fn writeUnsigned(&mut self, width: usize, leading_zero: bool, base: u64, show_base: bool, num: u64)
        requires
            old(self).wf(),
            2 <= base <= 16,
        ensures
            final(self).wf(),
            final(self).color == old(self).color,
            (final(self).cells(), final(self).spec_position()) == put_all(old(self).cells(), old(self).spec_position(), old(self).color,
                formatted(width as nat, leading_zero, base as nat, show_base, num as nat)),
    {
        let text = format_unsigned(width, leading_zero, base, show_base, num);
        self.write_bytes(text.as_slice());
    }

    /// Writes `x` in decimal.
    pub fn writeUInt(&mut self, x: u64)
        requires
            old(self).wf(),
        ensures
            final(self).wf(),
            final(self).color == old(self).color,
            (final(self).cells(), final(self).spec_position()) == put_all(old(self).cells(), old(self).spec_position(), old(self).color,
                formatted(0, false, 10, false, x as nat)),
    {
        self.writeUnsigned(0, false, 10, false, x);
    }

    /// Writes `x` in hexadecimal after "0x".
    pub fn writeHex(&mut self, x: u64)
        requires
            old(self).wf(),
        ensures
            final(self).wf(),
            final(self).color == old(self).color,
            (final(self).cells(), final(self).spec_position()) == put_all(old(self).cells(), old(self).spec_position(), old(self).color,
                formatted(0, false, 16, true, x as nat)),
    {
        self.writeUnsigned(0, false, 16, true, x);
    }

    /// Writes `x` as a full 16-digit hexadecimal address after "0x".
    pub fn writePHex(&mut self, x: u64)
        requires
            old(self).wf(),
        ensures
            final(self).wf(),
            final(self).color == old(self).color,
            (final(self).cells(), final(self).spec_position()) == put_all(old(self).cells(), old(self).spec_position(), old(self).color,
                formatted(16, true, 16, true, x as nat)),
    {
        self.writeUnsigned(16, true, 16, true, x);
    }

    /// Writes `x` in decimal.
    pub fn writeInt(&mut self, x: i64)
        requires
            old(self).wf(),
        ensures
            final(self).wf(),
            final(self).color == old(self).color,
            (final(self).cells(), final(self).spec_position()) == put_all(old(self).cells(), old(self).spec_position(), old(self).color,
                formatted_signed(x)),
    {
        let text = format_signed(x);
        self.write_bytes(text.as_slice());
    }

    /// Writes the bytes of `c_str` up to its terminating zero.
    pub fn writeCStr(&mut self, c_str: &[u8])
        requires
            old(self).wf(),
        ensures
            final(self).wf(),
            final(self).color == old(self).color,
            exists|n: int|
                0 <= n <= c_str@.len() && (n == c_str@.len() || c_str@[n] == 0) && (forall|j: int| 0 <= j < n ==> c_str@[j] != 0)
                    && (final(self).cells(), final(self).spec_position()) == put_all(old(self).cells(), old(self).spec_position(), old(self).color,
                    c_str@.subrange(0, n)),
    {
        let text = cstr_prefix(c_str);
        self.write_bytes(text.as_slice());
        proof {
            let n = text@.len() as int;
            assert forall|j: int| 0 <= j < n implies c_str@[j] != 0 by {
                assert(c_str@[j] == text@[j]);
            }
            assert(0 <= n <= c_str@.len() && (n == c_str@.len() || c_str@[n] == 0));
        }
    }
}

} // verus!
