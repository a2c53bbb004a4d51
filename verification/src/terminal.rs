//! The display and input subsystem: a 32x64 monochrome framebuffer drawn by
//! XOR-ing sprites, and a keypad input source with a queue of decoded keys
//! that were read from the raw event stream but not yet matched by a check.

use vstd::prelude::*;

verus! {

/// One raw input event, as the logic reads it: a plain character, a
/// control-modified character, or anything else (which is discarded).
#[derive(Clone, Copy, PartialEq, Eq, Structural, Debug)]
pub enum RawKey {
    Char(char),
    Ctrl(char),
    Other,
}

/// The mathematical state of the display/input subsystem.
#[verifier::ext_equal]
pub ghost struct TermView {
    /// 32 rows of 64 pixels; column `c` of a row is bit `63 - c` of its word.
    pub pixels: Seq<u64>,
    /// Decoded key codes read from the stream but not yet matched by a check.
    pub unprocessed: Seq<u8>,
    /// Raw events currently available on the input stream, oldest first.
    pub incoming: Seq<RawKey>,
    /// Sticky exit flag, raised once the termination combination is seen.
    pub exit: bool,
}

/// The display and input state machine. The driver feeds raw events in with
/// [`Terminal::push_key`] and materializes pixels from [`Terminal::render`];
/// the terminal itself performs no physical input or output.
pub struct Terminal {
    pub pixels: Vec<u64>,
    pub unprocessed: Vec<u8>,
    pub incoming: Vec<RawKey>,
    pub exit: bool,
}

impl View for Terminal {
    type V = TermView;

    open spec fn view(&self) -> TermView {
        TermView {
            pixels: self.pixels@,
            unprocessed: self.unprocessed@,
            incoming: self.incoming@,
            exit: self.exit,
        }
    }
}

impl TermView {
    pub open spec fn wf(self) -> bool {
        self.pixels.len() == 32
    }
}

/// An all-clear framebuffer.
pub open spec fn blank_pixels() -> Seq<u64> {
    Seq::new(32, |r: int| 0u64)
}

/// Bit `k` of `n` (bit 0 is the least significant).
pub open spec fn bit64(n: u64, k: u64) -> bool {
    (n >> k) & 1 == 1
}

/// Whether the pixel at column `c` of row word `w` is set.
pub open spec fn pixel_set(w: u64, c: u64) -> bool {
    c < 64 && bit64(w, (63 - c) as u64)
}

/// The key code a raw event decodes to: the sixteen symbols `0`-`9` and
/// `a`-`f` map to 0-15; every other event decodes to nothing.
pub open spec fn key_code(k: RawKey) -> Option<u8> {
    match k {
        RawKey::Char(c) => if '0' as int <= c as int && c as int <= '9' as int {
            Some((c as int - '0' as int) as u8)
        } else if 'a' as int <= c as int && c as int <= 'f' as int {
            Some((10 + c as int - 'a' as int) as u8)
        } else {
            None
        },
        _ => None,
    }
}

/// Whether a raw event is the out-of-band termination combination.
pub open spec fn is_exit_key(k: RawKey) -> bool {
    k == RawKey::Ctrl('c')
}

impl Terminal {
    pub open spec fn wf(&self) -> bool {
        self@.wf()
    }

    /// A fresh terminal: a cleared framebuffer, empty queues, exit not raised.
    pub fn new() -> (t: Terminal)
        ensures
            t.wf(),
            t@ == (TermView {
                pixels: blank_pixels(),
                unprocessed: Seq::<u8>::empty(),
                incoming: Seq::<RawKey>::empty(),
                exit: false,
            }),
    {
        let mut pixels: Vec<u64> = Vec::new();
        while pixels.len() < 32
            invariant
                pixels@.len() <= 32,
                forall|r: int| 0 <= r < pixels@.len() ==> pixels@[r] == 0u64,
            decreases 32 - pixels@.len(),
        {
            pixels.push(0);
        }
        proof {
            assert(pixels@ =~= blank_pixels());
        }
        Terminal { pixels, unprocessed: Vec::new(), incoming: Vec::new(), exit: false }
    }

    /// Zeroes every pixel; queues and the exit flag are untouched.
    pub fn clear(&mut self)
        requires
            old(self).wf(),
        ensures
            final(self).wf(),
            final(self)@ == (TermView { pixels: blank_pixels(), ..old(self)@ }),
    {
        let mut r: usize = 0;
        while r < 32
            invariant
                self@.pixels.len() == 32,
                r <= 32,
                forall|k: int| 0 <= k < r ==> self@.pixels[k] == 0u64,
                self@.unprocessed == old(self)@.unprocessed,
                self@.incoming == old(self)@.incoming,
                self@.exit == old(self)@.exit,
            decreases 32 - r,
        {
            self.pixels.set(r, 0);
            r += 1;
        }
        proof {
            assert(self@.pixels =~= blank_pixels());
        }
    }

    /// Appends one raw event to the stream of currently available events.
    pub fn push_key(&mut self, k: RawKey)
        requires
            old(self).wf(),
        ensures
            final(self).wf(),
            final(self)@ == (TermView { incoming: old(self)@.incoming.push(k), ..old(self)@ }),
    {
        self.incoming.push(k);
    }
}

/// `v` rotated right by `k` bit positions (`k < 64`).
pub open spec fn rotr64(v: u64, k: u64) -> u64 {
    if k == 0 {
        v
    } else {
        (v >> k) | (v << (64 - k) as u64)
    }
}

/// The 64-bit row pattern a sprite byte contributes when drawn at column `x`:
/// the byte's most significant bit lands at column `x mod 64` and the rest
/// follow, wrapping past column 63 back to column 0.
pub open spec fn row_mask(b: u8, x: u8) -> u64 {
    rotr64((b as u64) << 56, (x as u64) % 64)
}

/// The framebuffer after XOR-drawing the sprite rows `s`, the first into row
/// `row mod 32` at column `x`, each later one into the next row down, the row
/// index wrapping modulo 32 independently for every row.
pub open spec fn draw_seq(p: Seq<u64>, x: u8, row: int, s: Seq<u8>) -> Seq<u64>
    decreases s.len(),
{
    if s.len() == 0 {
        p
    } else {
        let r = row % 32;
        draw_seq(p.update(r, p[r] ^ row_mask(s[0], x)), x, row + 1, s.drop_first())
    }
}

/// Whether drawing the sprite rows `s` turns any previously set pixel off,
/// that is, whether some sprite pixel lands on a pixel that is already set.
pub open spec fn draw_collides(p: Seq<u64>, x: u8, row: int, s: Seq<u8>) -> bool
    decreases s.len(),
{
    if s.len() == 0 {
        false
    } else {
        let r = row % 32;
        let m = row_mask(s[0], x);
        (p[r] & m) != 0 || draw_collides(p.update(r, p[r] ^ m), x, row + 1, s.drop_first())
    }
}

/// `v` rotated right by `k` bit positions.
fn rotr64_exec(v: u64, k: u64) -> (r: u64)
    requires
        k < 64,
    ensures
        r == rotr64(v, k),
{
    if k == 0 {
        v
    } else {
        (v >> k) | (v << (64 - k))
    }
}

impl Terminal {
    /// XOR-draws a sprite, one byte per row, at pixel coordinates `(x, y)`:
    /// row indices wrap modulo 32 and column indices wrap modulo 64. Returns
    /// 1 when some pixel that was set before the call is turned off by it
    /// (a collision), else 0.
    pub fn draw_sprite(&mut self, x: u8, y: u8, sprite: &[u8]) -> (r: u8)
        requires
            old(self).wf(),
        ensures
            final(self).wf(),
            final(self)@ == (TermView {
                pixels: draw_seq(old(self)@.pixels, x, y as int, sprite@),
                ..old(self)@
            }),
            r == if draw_collides(old(self)@.pixels, x, y as int, sprite@) {
                1u8
            } else {
                0u8
            },
    {
        let mut row: usize = (y as usize) % 32;
        let mut overwritten = false;
        let mut j: usize = 0;
        let shift: u64 = (x as u64) % 64;
        proof {
            assert(sprite@.skip(0) =~= sprite@);
        }
        while j < sprite.len()
            invariant
                self@.pixels.len() == 32,
                self@.unprocessed == old(self)@.unprocessed,
                self@.incoming == old(self)@.incoming,
                self@.exit == old(self)@.exit,
                j <= sprite@.len(),
                shift == (x as u64) % 64,
                row == (y + j) % 32,
                draw_seq(old(self)@.pixels, x, y as int, sprite@) == draw_seq(
                    self@.pixels,
                    x,
                    y + j,
                    sprite@.skip(j as int),
                ),
                draw_collides(old(self)@.pixels, x, y as int, sprite@) == (overwritten
                    || draw_collides(self@.pixels, x, y + j, sprite@.skip(j as int))),
            decreases sprite@.len() - j,
        {
            let b = sprite[j];
            let mask = rotr64_exec((b as u64) << 56, shift);
            let line = self.pixels[row];
            proof {
                assert(sprite@.skip(j as int)[0] == sprite@[j as int]);
                assert(sprite@.skip(j as int).drop_first() =~= sprite@.skip(j as int + 1));
                assert((y + j) % 32 == (y + j as int) % 32);
            }
            overwritten = overwritten || (line & mask != 0);
            self.pixels.set(row, line ^ mask);
            row = (row + 1) % 32;
            j += 1;
        }
        proof {
            assert(sprite@.skip(sprite@.len() as int) =~= Seq::<u8>::empty());
        }
        if overwritten {
            1
        } else {
            0
        }
    }

    /// Yields the whole pixel grid as `(row, column, is_set)` triples, row by
    /// row, for an external display driver to materialize. Performs no
    /// physical output itself.
    pub fn render(&self) -> (out: Vec<(u8, u8, bool)>)
        requires
            self.wf(),
        ensures
            out@.len() == 32 * 64,
            forall|k: int|
                0 <= k < 32 * 64 ==> #[trigger] out@[k] == (
                    (k / 64) as u8,
                    (k % 64) as u8,
                    pixel_set(self@.pixels[k / 64], (k % 64) as u64),
                ),
    {
        let mut out: Vec<(u8, u8, bool)> = Vec::new();
        let mut y: usize = 0;
        while y < 32
            invariant
                self.wf(),
                y <= 32,
                out@.len() == y * 64,
                forall|k: int|
                    0 <= k < y * 64 ==> #[trigger] out@[k] == (
                        (k / 64) as u8,
                        (k % 64) as u8,
                        pixel_set(self@.pixels[k / 64], (k % 64) as u64),
                    ),
            decreases 32 - y,
        {
            let line = self.pixels[y];
            let mut it = BitIterator::new(line);
            let mut x: usize = 0;
            while x < 64
                invariant
                    self.wf(),
                    y < 32,
                    x <= 64,
                    line == self@.pixels[y as int],
                    it.n == line,
                    it.index == 64 - x,
                    out@.len() == y * 64 + x,
                    forall|k: int|
                        0 <= k < y * 64 + x ==> #[trigger] out@[k] == (
                            (k / 64) as u8,
                            (k % 64) as u8,
                            pixel_set(self@.pixels[k / 64], (k % 64) as u64),
                        ),
                decreases 64 - x,
            {
                let bit = it.next();
                let is_set = match bit {
                    Some(b) => b,
                    None => false,
                };
                proof {
                    let k = (y * 64 + x) as int;
                    assert(k / 64 == y && k % 64 == x) by (nonlinear_arith)
                        requires
                            0 <= y < 32 && 0 <= x < 64 && k == y * 64 + x,
                    ;
                }
                out.push((y as u8, x as u8, is_set));
                x += 1;
            }
            y += 1;
        }
        out
    }
}

/// Decodes one raw event into a key code 0-15, or nothing.
pub fn map_key(key: RawKey) -> (r: Option<u8>)
    ensures
        r == key_code(key),
{
    match key {
        RawKey::Char(c) => match c {
            '0' => Some(0),
            '1' => Some(1),
            '2' => Some(2),
            '3' => Some(3),
            '4' => Some(4),
            '5' => Some(5),
            '6' => Some(6),
            '7' => Some(7),
            '8' => Some(8),
            '9' => Some(9),
            'a' => Some(10),
            'b' => Some(11),
            'c' => Some(12),
            'd' => Some(13),
            'e' => Some(14),
            'f' => Some(15),
            _ => None,
        },
        _ => None,
    }
}

/// The position of the first occurrence of `key` in `q`, or -1 when `q` does
/// not hold it.
pub open spec fn find_first(q: Seq<u8>, key: u8) -> int
    decreases q.len(),
{
    if q.len() == 0 {
        -1
    } else if q[0] == key {
        0
    } else {
        let r = find_first(q.drop_first(), key);
        if r < 0 {
            -1
        } else {
            r + 1
        }
    }
}

/// What draining the available raw events leaves behind.
#[verifier::ext_equal]
pub ghost struct DrainOut {
    /// The unprocessed queue afterwards.
    pub unprocessed: Seq<u8>,
    /// The events still available afterwards.
    pub incoming: Seq<RawKey>,
    /// Whether the termination combination was among the consumed events.
    pub exit_seen: bool,
    /// Whether the expected key was reached.
    pub found: bool,
}

/// Draining the available events one by one, oldest first: an event decoding
/// to `key` stops the drain with the unprocessed queue cleared; one decoding
/// to another code is appended to the unprocessed queue; one decoding to
/// nothing is discarded. The termination combination is noticed on every
/// consumed event.
pub open spec fn drain(unp: Seq<u8>, inc: Seq<RawKey>, key: u8) -> DrainOut
    decreases inc.len(),
{
    if inc.len() == 0 {
        DrainOut { unprocessed: unp, incoming: inc, exit_seen: false, found: false }
    } else {
        let k = inc[0];
        let rest = inc.drop_first();
        let d = match key_code(k) {
            Some(code) => if code == key {
                DrainOut {
                    unprocessed: Seq::<u8>::empty(),
                    incoming: rest,
                    exit_seen: false,
                    found: true,
                }
            } else {
                drain(unp.push(code), rest, key)
            },
            None => drain(unp, rest, key),
        };
        DrainOut { exit_seen: is_exit_key(k) || d.exit_seen, ..d }
    }
}

/// What one press-check leaves behind.
#[verifier::ext_equal]
pub ghost struct CheckOut {
    pub state: TermView,
    pub found: bool,
}

/// One press-check for `key`. When `key` is already in the unprocessed queue,
/// everything up to and including its first occurrence is dropped and the
/// check succeeds without touching the event stream. Otherwise the available
/// events are drained as [`drain`] says, and the exit flag is raised if the
/// termination combination was consumed.
pub open spec fn check_spec(t: TermView, key: u8) -> CheckOut {
    let fi = find_first(t.unprocessed, key);
    if fi >= 0 {
        CheckOut {
            state: TermView { unprocessed: t.unprocessed.skip(fi + 1), ..t },
            found: true,
        }
    } else {
        let d = drain(t.unprocessed, t.incoming, key);
        CheckOut {
            state: TermView {
                unprocessed: d.unprocessed,
                incoming: d.incoming,
                exit: t.exit || d.exit_seen,
                ..t
            },
            found: d.found,
        }
    }
}

impl Terminal {
    /// Whether the key `expected` is pressed: first the queue of keys already
    /// read but unmatched is searched, and a match drops every entry up to
    /// and including it; otherwise the available raw events are drained, each
    /// non-matching decoded key being queued for a later check. See
    /// [`check_spec`].
    pub fn check_if_pressed(&mut self, expected: u8) -> (r: bool)
        requires
            old(self).wf(),
        ensures
            final(self).wf(),
            final(self)@ == check_spec(old(self)@, expected).state,
            r == check_spec(old(self)@, expected).found,
    {
        let ghost orig = self@;
        let mut idx: usize = 0;
        proof {
            assert(self@.unprocessed.skip(0) =~= self@.unprocessed);
        }
        while idx < self.unprocessed.len()
            invariant
                orig == old(self)@,
                orig.wf(),
                self@ == orig,
                idx <= self@.unprocessed.len(),
                find_first(orig.unprocessed, expected) == if find_first(
                    orig.unprocessed.skip(idx as int),
                    expected,
                ) < 0 {
                    -1int
                } else {
                    idx + find_first(orig.unprocessed.skip(idx as int), expected)
                },
            decreases self@.unprocessed.len() - idx,
        {
            proof {
                assert(orig.unprocessed.skip(idx as int)[0] == orig.unprocessed[idx as int]);
                assert(orig.unprocessed.skip(idx as int).drop_first() =~= orig.unprocessed.skip(
                    idx as int + 1,
                ));
            }
            if self.unprocessed[idx] == expected {
                proof {
                    assert(find_first(orig.unprocessed.skip(idx as int), expected) == 0);
                    assert(find_first(orig.unprocessed, expected) == idx);
                }
                let count = idx + 1;
                let mut k: usize = 0;
                while k < count
                    invariant
                        orig == old(self)@,
                        orig.wf(),
                        find_first(orig.unprocessed, expected) == count - 1,
                        k <= count,
                        count <= orig.unprocessed.len(),
                        self@ == (TermView {
                            unprocessed: orig.unprocessed.skip(k as int),
                            ..orig
                        }),
                    decreases count - k,
                {
                    proof {
                        assert(orig.unprocessed.skip(k as int).remove(0) =~= orig.unprocessed.skip(
                            k as int + 1,
                        ));
                    }
                    let _ = self.unprocessed.remove(0);
                    k += 1;
                }
                proof {
                    assert(self@ =~= check_spec(orig, expected).state);
                }
                return true;
            }
            idx += 1;
        }
        proof {
            assert(orig.unprocessed.skip(orig.unprocessed.len() as int) =~= Seq::<u8>::empty());
            assert(find_first(orig.unprocessed, expected) == -1);
        }
        let ghost mut seen: bool = false;
        while self.incoming.len() > 0
            invariant
                orig == old(self)@,
                orig.wf(),
                find_first(orig.unprocessed, expected) == -1,
                self@.pixels == orig.pixels,
                self@.exit == (orig.exit || seen),
                drain(orig.unprocessed, orig.incoming, expected) == (DrainOut {
                    exit_seen: seen || drain(
                        self@.unprocessed,
                        self@.incoming,
                        expected,
                    ).exit_seen,
                    ..drain(self@.unprocessed, self@.incoming, expected)
                }),
            decreases self@.incoming.len(),
        {
            proof {
                assert(self@.incoming.remove(0) =~= self@.incoming.drop_first());
            }
            let ghost pre = self@;
            let k = self.incoming.remove(0);
            let is_ctrl_c = match k {
                RawKey::Ctrl(c) => c == 'c',
                _ => false,
            };
            if is_ctrl_c {
                self.exit = true;
            }
            proof {
                seen = seen || is_exit_key(pre.incoming[0]);
            }
            match map_key(k) {
                Some(code) => {
                    if code == expected {
                        self.unprocessed.clear();
                        proof {
                            assert(self@ =~= check_spec(orig, expected).state);
                        }
                        return true;
                    } else {
                        self.unprocessed.push(code);
                    }
                },
                None => {},
            }
        }
        proof {
            assert(self@ =~= check_spec(orig, expected).state);
        }
        false
    }

    /// Consumes at most one available raw event and decodes it; yields
    /// nothing when no event is available or the event decodes to nothing
    /// (the caller retries on a later tick). The termination combination
    /// raises the exit flag even though it decodes to nothing.
    pub fn wait_for_key_press(&mut self) -> (r: Option<u8>)
        requires
            old(self).wf(),
        ensures
            final(self).wf(),
            old(self)@.incoming.len() == 0 ==> r is None && final(self)@ == old(self)@,
            old(self)@.incoming.len() > 0 ==> {
                let k = old(self)@.incoming[0];
                r == key_code(k) && final(self)@ == (TermView {
                    incoming: old(self)@.incoming.drop_first(),
                    exit: old(self)@.exit || is_exit_key(k),
                    ..old(self)@
                })
            },
    {
        if self.incoming.len() == 0 {
            return None;
        }
        proof {
            assert(self@.incoming.drop_first() =~= self@.incoming.skip(1));
        }
        let k = self.incoming.remove(0);
        let is_ctrl_c = match k {
            RawKey::Ctrl(c) => c == 'c',
            _ => false,
        };
        if is_ctrl_c {
            self.exit = true;
        }
        map_key(k)
    }
}

/// Walks the 64 bits of a row word from the most significant (column 0) to
/// the least significant (column 63).
pub struct BitIterator {
    pub n: u64,
    pub index: u32,
}

impl BitIterator {
    pub fn new(n: u64) -> (it: BitIterator)
        ensures
            it.n == n,
            it.index == 64,
    {
        BitIterator { n, index: 64 }
    }

    /// Yields the next bit, highest first, or nothing once all 64 are out.
    pub fn next(&mut self) -> (r: Option<bool>)
        requires
            old(self).index <= 64,
        ensures
            final(self).n == old(self).n,
            old(self).index == 0 ==> r is None && final(self).index == 0,
            old(self).index > 0 ==> final(self).index == old(self).index - 1 && r == Some(
                bit64(old(self).n, (old(self).index - 1) as u64),
            ),
    {
        if self.index == 0 {
            return None;
        }
        let res = self.n & (1u64 << (self.index - 1));
        proof {
            let k = (self.index - 1) as u64;
            let n = self.n;
            assert(k < 64 ==> (n & (1u64 << k) > 0) == ((n >> k) & 1 == 1)) by (bit_vector);
        }
        self.index -= 1;
        Some(res > 0)
    }
}

/// XOR-updating one row commutes with drawing a sprite: pre-XORing `m` into
/// row `r` and then drawing gives the same board as drawing first and then
/// XORing `m` into row `r`.
proof fn lemma_draw_update_commutes(p: Seq<u64>, x: u8, row: int, s: Seq<u8>, r: int, m: u64)
    requires
        p.len() == 32,
        0 <= r < 32,
    ensures
        draw_seq(p.update(r, p[r] ^ m), x, row, s) == draw_seq(p, x, row, s).update(
            r,
            draw_seq(p, x, row, s)[r] ^ m,
        ),
    decreases s.len(),
{
    if s.len() == 0 {
    } else {
        let r2 = row % 32;
        let m2 = row_mask(s[0], x);
        let p1 = p.update(r2, p[r2] ^ m2);
        let q = p.update(r, p[r] ^ m);
        let q1 = q.update(r2, q[r2] ^ m2);
        if r == r2 {
            let a = p[r];
            assert((a ^ m) ^ m2 == (a ^ m2) ^ m) by (bit_vector);
            assert(q1 =~= p1.update(r, p1[r] ^ m));
        } else {
            assert(q1 =~= p1.update(r, p1[r] ^ m));
        }
        lemma_draw_update_commutes(p1, x, row + 1, s.drop_first(), r, m);
    }
}

/// Drawing the same sprite twice at the same coordinates restores every
/// pixel to its state before the first draw: the XOR draw is an involution.
pub proof fn lemma_draw_involution(p: Seq<u64>, x: u8, row: int, s: Seq<u8>)
    requires
        p.len() == 32,
    ensures
        draw_seq(draw_seq(p, x, row, s), x, row, s) == p,
    decreases s.len(),
{
    if s.len() == 0 {
    } else {
        let r = row % 32;
        let m = row_mask(s[0], x);
        let p1 = p.update(r, p[r] ^ m);
        let d = draw_seq(p1, x, row + 1, s.drop_first());
        lemma_draw_update_commutes(p1, x, row + 1, s.drop_first(), r, m);
        let a = p[r];
        assert((a ^ m) ^ m == a) by (bit_vector);
        assert(p1.update(r, p1[r] ^ m) =~= p);
        lemma_draw_involution(p, x, row + 1, s.drop_first());
    }
}

/// A second draw of an all-zero sprite reports no collision. (This is as
/// much as can hold of a repeated draw: a sprite with any set bit turns the
/// pixels the first draw set back off, which the collision flag reports.)
pub proof fn lemma_redraw_blank_no_collision(p: Seq<u64>, x: u8, row: int, s: Seq<u8>)
    requires
        p.len() == 32,
        !draw_collides(p, x, row, s),
        forall|j: int| 0 <= j < s.len() ==> s[j] == 0u8,
    ensures
        !draw_collides(draw_seq(p, x, row, s), x, row, s),
    decreases s.len(),
{
    if s.len() == 0 {
    } else {
        let r = row % 32;
        assert(s[0] == 0u8);
        let k = (x as u64) % 64;
        assert(rotr64((0u8 as u64) << 56, k) == 0) by (bit_vector);
        assert(row_mask(s[0], x) == 0);
        lemma_draw_len(p, x, row, s);
        let b = p[r];
        assert(b ^ 0 == b && b & 0 == 0) by (bit_vector);
        assert(p.update(r, p[r] ^ row_mask(s[0], x)) =~= p);
        assert(forall|j: int|
            0 <= j < s.drop_first().len() ==> s.drop_first()[j] == s[j + 1]);
        lemma_redraw_blank_no_collision(p, x, row + 1, s.drop_first());
        let d = draw_seq(p, x, row, s);
        assert(d == draw_seq(p, x, row + 1, s.drop_first()));
        let a = d[r];
        assert(a ^ 0 == a && a & 0 == 0) by (bit_vector);
        assert(d.update(r, d[r] ^ row_mask(s[0], x)) =~= d);
    }
}

/// A draw leaves the number of rows unchanged.
pub proof fn lemma_draw_len(p: Seq<u64>, x: u8, row: int, s: Seq<u8>)
    requires
        p.len() == 32,
    ensures
        draw_seq(p, x, row, s).len() == p.len(),
    decreases s.len(),
{
    if s.len() == 0 {
    } else {
        let r = row % 32;
        lemma_draw_len(p.update(r, p[r] ^ row_mask(s[0], x)), x, row + 1, s.drop_first());
    }
}

/// The starting row only matters modulo 32: the board and the collision
/// flag after a draw at `row` equal those after a draw at `row mod 32`.
pub proof fn lemma_draw_rows_wrap(p: Seq<u64>, x: u8, row: int, s: Seq<u8>)
    ensures
        draw_seq(p, x, row, s) == draw_seq(p, x, row % 32, s),
        draw_collides(p, x, row, s) == draw_collides(p, x, row % 32, s),
    decreases s.len(),
{
    if s.len() == 0 {
    } else {
        assert((row % 32) % 32 == row % 32);
        assert((row + 1) % 32 == (row % 32 + 1) % 32) by {
            vstd::arithmetic::div_mod::lemma_add_mod_noop(row, 1, 32);
            vstd::arithmetic::div_mod::lemma_add_mod_noop(row % 32, 1, 32);
        }
        let r = row % 32;
        let p1 = p.update(r, p[r] ^ row_mask(s[0], x));
        lemma_draw_rows_wrap(p1, x, row + 1, s.drop_first());
        lemma_draw_rows_wrap(p1, x, r + 1, s.drop_first());
    }
}

/// The column only matters modulo 64: a draw at column `x` equals a draw at
/// column `x mod 64`, row by row.
pub proof fn lemma_draw_cols_wrap(p: Seq<u64>, x: u8, row: int, s: Seq<u8>)
    ensures
        draw_seq(p, x, row, s) == draw_seq(p, (x % 64) as u8, row, s),
        draw_collides(p, x, row, s) == draw_collides(p, (x % 64) as u8, row, s),
    decreases s.len(),
{
    assert((x as u64) % 64 == (((x % 64) as u8) as u64) % 64) by (bit_vector);
    if s.len() == 0 {
    } else {
        let r = row % 32;
        let p1 = p.update(r, p[r] ^ row_mask(s[0], x));
        lemma_draw_cols_wrap(p1, x, row + 1, s.drop_first());
    }
}

/// Exactly where the bits of one sprite byte land: the pixel at column `c`
/// of the row pattern for byte `b` drawn at column `x` is set exactly when
/// `c` is `(x + j) mod 64` for some bit position `j < 8` and bit `j` of `b`
/// (counted from the most significant) is set.
pub proof fn lemma_row_mask_pixels(b: u8, x: u8, c: u64)
    requires
        c < 64,
    ensures
        pixel_set(row_mask(b, x), c) == ({
            let j = (c + 64 - (x as u64) % 64) % 64;
            j < 8 && ((b as u64) >> (7 - j) as u64) & 1 == 1
        }),
{
    assert(c < 64 ==> ((rotr64((b as u64) << 56, (x as u64) % 64) >> (63 - c) as u64) & 1 == 1)
        == ({
        let j = (c + 64 - (x as u64) % 64) % 64;
        j < 8 && ((b as u64) >> (7 - j) as u64) & 1 == 1
    })) by (bit_vector);
}

/// Where the first occurrence of `key` sits in `q`: a negative result means
/// `q` does not hold `key` at all, a non-negative one is its position, with
/// everything before it different from `key`.
pub proof fn lemma_find_first_props(q: Seq<u8>, key: u8)
    ensures
        find_first(q, key) < 0 ==> forall|i: int| 0 <= i < q.len() ==> q[i] != key,
        find_first(q, key) >= 0 ==> {
            let fi = find_first(q, key);
            &&& 0 <= fi < q.len()
            &&& q[fi] == key
            &&& forall|i: int| 0 <= i < fi ==> q[i] != key
        },
    decreases q.len(),
{
    if q.len() == 0 {
    } else if q[0] == key {
    } else {
        lemma_find_first_props(q.drop_first(), key);
        assert(forall|i: int| 1 <= i < q.len() ==> q[i] == q.drop_first()[i - 1]);
    }
}

/// A drain that does not find `key` keeps every queued key `k != key`
/// available: it only ever appends to the unprocessed queue.
proof fn lemma_drain_keeps_queued(unp: Seq<u8>, inc: Seq<RawKey>, key: u8, k: u8)
    requires
        unp.contains(k),
        !drain(unp, inc, key).found,
    ensures
        drain(unp, inc, key).unprocessed.contains(k),
    decreases inc.len(),
{
    if inc.len() == 0 {
    } else {
        let rest = inc.drop_first();
        match key_code(inc[0]) {
            Some(code) => {
                if code == key {
                } else {
                    let i = choose|i: int| 0 <= i < unp.len() && unp[i] == k;
                    assert(unp.push(code)[i] == k);
                    lemma_drain_keeps_queued(unp.push(code), rest, key, k);
                }
            },
            None => {
                lemma_drain_keeps_queued(unp, rest, key, k);
            },
        }
    }
}

/// A drain that does not find `key` enqueues every other decoded key it
/// consumed: the key of any event at position `j` that decodes to
/// `code != key` is in the unprocessed queue afterwards.
proof fn lemma_drain_enqueues(unp: Seq<u8>, inc: Seq<RawKey>, key: u8, j: int)
    requires
        0 <= j < inc.len(),
        key_code(inc[j]) is Some,
        key_code(inc[j]) != Some(key),
        !drain(unp, inc, key).found,
    ensures
        drain(unp, inc, key).unprocessed.contains(key_code(inc[j]).unwrap()),
    decreases inc.len(),
{
    let rest = inc.drop_first();
    match key_code(inc[0]) {
        Some(code) => {
            if code == key {
            } else if j == 0 {
                assert(unp.push(code)[unp.len() as int] == code);
                lemma_drain_keeps_queued(unp.push(code), rest, key, code);
            } else {
                assert(rest[j - 1] == inc[j]);
                lemma_drain_enqueues(unp.push(code), rest, key, j - 1);
            }
        },
        None => {
            if j == 0 {
            } else {
                assert(rest[j - 1] == inc[j]);
                lemma_drain_enqueues(unp, rest, key, j - 1);
            }
        },
    }
}

/// A check that matches a key already in the unprocessed queue drops every
/// entry up to and including the first occurrence of that key, leaves the
/// event stream and the exit flag untouched, and succeeds.
pub proof fn lemma_check_match_drops(t: TermView, key: u8)
    requires
        t.unprocessed.contains(key),
    ensures
        ({
            let out = check_spec(t, key);
            let fi = find_first(t.unprocessed, key);
            &&& out.found
            &&& 0 <= fi < t.unprocessed.len()
            &&& t.unprocessed[fi] == key
            &&& forall|i: int| 0 <= i < fi ==> t.unprocessed[i] != key
            &&& out.state.unprocessed == t.unprocessed.skip(fi + 1)
            &&& out.state.incoming == t.incoming
            &&& out.state.exit == t.exit
            &&& out.state.pixels == t.pixels
        }),
{
    lemma_find_first_props(t.unprocessed, key);
}

/// A key `k` that sits in the unprocessed queue and is not matched by a
/// failed check for a different key `key` stays available: the later check
/// for `k` itself succeeds.
pub proof fn lemma_unmatched_key_remains(t: TermView, key: u8, k: u8)
    requires
        k != key,
        t.unprocessed.contains(k),
        !check_spec(t, key).found,
    ensures
        check_spec(t, key).state.unprocessed.contains(k),
        check_spec(check_spec(t, key).state, k).found,
{
    lemma_find_first_props(t.unprocessed, key);
    lemma_drain_keeps_queued(t.unprocessed, t.incoming, key, k);
    lemma_find_first_props(check_spec(t, key).state.unprocessed, k);
}

/// A decoded key consumed from the event stream by a failed check for a
/// different key stays available: it is enqueued, and the later check for
/// it succeeds.
pub proof fn lemma_consumed_key_remains(t: TermView, key: u8, j: int)
    requires
        0 <= j < t.incoming.len(),
        key_code(t.incoming[j]) is Some,
        key_code(t.incoming[j]) != Some(key),
        !check_spec(t, key).found,
    ensures
        check_spec(t, key).state.unprocessed.contains(key_code(t.incoming[j]).unwrap()),
        check_spec(check_spec(t, key).state, key_code(t.incoming[j]).unwrap()).found,
{
    lemma_find_first_props(t.unprocessed, key);
    lemma_drain_enqueues(t.unprocessed, t.incoming, key, j);
    lemma_find_first_props(
        check_spec(t, key).state.unprocessed,
        key_code(t.incoming[j]).unwrap(),
    );
}

} // verus!
