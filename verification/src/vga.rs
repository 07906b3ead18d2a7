//! The text screen as a bounds-checked grid of cells with an owned
//! cursor: every write lands at (row, column), the column wraps at the
//! right edge, and the row wraps past the bottom.  Flushing the grid
//! to video memory is the caller's business; nothing here touches
//! hardware.

use vstd::prelude::*;
use vstd::string::StringSliceAdditionalSpecFns;

verus! {

/// Columns of the text screen.
pub const SCREEN_WIDTH: usize = 80;

/// Rows of the text screen.
pub const SCREEN_HEIGHT: usize = 25;

/// The colour attribute every character is drawn with.
pub const TEXT_COLOR: u8 = 0xb;

/// One character cell: the byte shown and its colour attribute.
#[derive(Clone, Copy, PartialEq, Eq, Structural, Debug)]
pub struct ScreenCell {
    pub ch: u8,
    pub color: u8,
}

/// The writer owns the whole grid and the cursor, so no global state
/// is needed: whoever holds the writer exclusively may print.
pub struct Writer {
    pub cells: Vec<ScreenCell>,
    pub row: usize,
    pub col: usize,
}

/// The grid has exactly one cell per screen position and the cursor
/// stays on the screen.
pub open spec fn writer_wf(w: Writer) -> bool {
    &&& w.cells@.len() == 2000
    &&& w.row < 25
    &&& w.col < 80
}

/// The writer's abstract state: the cells, the cursor row, the cursor
/// column.
pub open spec fn writer_state(w: Writer) -> (Seq<ScreenCell>, int, int) {
    (w.cells@, w.row as int, w.col as int)
}

/// The effect of printing one byte: a newline moves the cursor to the
/// start of the next row, any other byte is drawn at the cursor and
/// the cursor steps right; both wrap.
pub open spec fn put_byte(s: (Seq<ScreenCell>, int, int), b: u8) -> (Seq<ScreenCell>, int, int) {
    if b == 10 {
        (s.0, (s.1 + 1) % 25, 0)
    } else {
        let cells = s.0.update(s.1 * 80 + s.2, ScreenCell { ch: b, color: 0xb });
        if s.2 + 1 < 80 {
            (cells, s.1, s.2 + 1)
        } else {
            (cells, (s.1 + 1) % 25, 0)
        }
    }
}

/// The effect of printing a sequence of bytes, first byte first.
pub open spec fn put_bytes(s: (Seq<ScreenCell>, int, int), bs: Seq<u8>) -> (
    Seq<ScreenCell>,
    int,
    int,
)
    decreases bs.len(),
{
    if bs.len() == 0 {
        s
    } else {
        put_bytes(put_byte(s, bs[0]), bs.drop_first())
    }
}

/// Peeling the last byte off a prefix of the byte sequence.
proof fn lemma_put_bytes_snoc(s: (Seq<ScreenCell>, int, int), bs: Seq<u8>, i: int)
    requires
        0 <= i < bs.len(),
    ensures
        put_bytes(s, bs.take(i + 1)) == put_byte(put_bytes(s, bs.take(i)), bs[i]),
    decreases i,
{
    if i == 0 {
        assert(bs.take(1).drop_first() =~= Seq::<u8>::empty());
        assert(bs.take(0) =~= Seq::<u8>::empty());
        assert(bs.take(1)[0] == bs[0]);
        assert(put_bytes(s, bs.take(1)) == put_bytes(put_byte(s, bs[0]), bs.take(1).drop_first()));
        assert(put_bytes(put_byte(s, bs[0]), Seq::<u8>::empty()) == put_byte(s, bs[0]));
        assert(put_bytes(s, bs.take(0)) == s);
    } else {
        assert(bs.take(i + 1).drop_first() =~= bs.drop_first().take(i));
        assert(bs.take(i).drop_first() =~= bs.drop_first().take(i - 1));
        lemma_put_bytes_snoc(put_byte(s, bs[0]), bs.drop_first(), i - 1);
        assert(bs.take(i + 1)[0] == bs[0]);
        assert(bs.take(i)[0] == bs[0]);
        assert(bs.drop_first()[i - 1] == bs[i]);
        assert(put_bytes(s, bs.take(i + 1)) == put_bytes(
            put_byte(s, bs[0]),
            bs.drop_first().take(i),
        ));
        assert(put_bytes(s, bs.take(i)) == put_bytes(
            put_byte(s, bs[0]),
            bs.drop_first().take(i - 1),
        ));
    }
}

impl Writer {
    /// A blank screen with the cursor in the top left corner.
    pub fn new() -> (w: Writer)
        ensures
            writer_wf(w),
            w.row == 0,
            w.col == 0,
            forall|i: int|
                0 <= i < 2000 ==> w.cells@[i] == (ScreenCell { ch: 32u8, color: TEXT_COLOR }),
    {
        let mut cells: Vec<ScreenCell> = Vec::new();
        let mut i: usize = 0;
        while i < 2000
            invariant
                cells@.len() == i,
                i <= 2000,
                forall|j: int|
                    0 <= j < i ==> cells@[j] == (ScreenCell { ch: 32u8, color: TEXT_COLOR }),
            decreases 2000 - i,
        {
            cells.push(ScreenCell { ch: 32u8, color: TEXT_COLOR });
            i = i + 1;
        }
        Writer { cells, row: 0, col: 0 }
    }

    /// Draw one byte at a given screen position, bounds-checked: the
    /// only way anything reaches the grid.
    pub fn write_cell(&mut self, row: usize, col: usize, byte: u8)
        requires
            writer_wf(*old(self)),
            row < 25,
            col < 80,
        ensures
            writer_wf(*final(self)),
            final(self).cells@ == old(self).cells@.update(
                row * 80 + col,
                ScreenCell { ch: byte, color: TEXT_COLOR },
            ),
            final(self).row == old(self).row,
            final(self).col == old(self).col,
    {
        let idx = row * 80 + col;
        self.cells.set(idx, ScreenCell { ch: byte, color: TEXT_COLOR });
    }

    /// Print one byte at the cursor.
    pub fn print_byte(&mut self, byte: u8)
        requires
            writer_wf(*old(self)),
        ensures
            writer_wf(*final(self)),
            writer_state(*final(self)) == put_byte(writer_state(*old(self)), byte),
    {
        if byte == 10 {
            self.row = (self.row + 1) % 25;
            self.col = 0;
        } else {
            self.write_cell(self.row, self.col, byte);
            if self.col + 1 < 80 {
                self.col = self.col + 1;
            } else {
                self.row = (self.row + 1) % 25;
                self.col = 0;
            }
        }
    }

    /// Print every byte of the string in order.
    pub fn print(&mut self, s: &str)
        requires
            writer_wf(*old(self)),
        ensures
            writer_wf(*final(self)),
            writer_state(*final(self)) == put_bytes(writer_state(*old(self)), s.spec_bytes()),
    {
        let bytes = s.as_bytes();
        let ghost bs = s.spec_bytes();
        let ghost s0 = writer_state(*old(self));
        let n = bytes.len();
        let mut i: usize = 0;
        proof {
            assert(bs.take(0) =~= Seq::<u8>::empty());
        }
        while i < n
            invariant
                writer_wf(*self),
                i <= n,
                n == bs.len(),
                bytes@ == bs,
                s0 == writer_state(*old(self)),
                writer_state(*self) == put_bytes(s0, bs.take(i as int)),
            decreases n - i,
        {
            let b = bytes[i];
            self.print_byte(b);
            proof {
                lemma_put_bytes_snoc(s0, bs, i as int);
            }
            i = i + 1;
        }
        proof {
            assert(bs.take(n as int) =~= bs);
        }
    }

    /// Print the string, then move to the start of the next line.
    pub fn println(&mut self, s: &str)
        requires
            writer_wf(*old(self)),
        ensures
            writer_wf(*final(self)),
            writer_state(*final(self)) == put_byte(
                put_bytes(writer_state(*old(self)), s.spec_bytes()),
                10,
            ),
    {
        self.print(s);
        self.print_byte(10);
    }
}

} // verus!
