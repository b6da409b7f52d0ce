//! The pixel-matrix data model for WS2812B LED strips.
//!
//! A [`Rgb`] is one pixel color; a [`Matrix`] is one strip's current
//! rendering state: a fixed-capacity pixel buffer plus an "active length"
//! watermark that only ever grows while the matrix is in use.

use vstd::prelude::*;

use crate::config::WS2812B_LED_MAX;
use crate::config::WS2812B_STATEMACHINES;
use crate::error::Error;

verus! {

/// A 3x8-bit RGB color value.
#[derive(Debug, Clone, Copy, PartialEq, Eq, Structural)]
pub struct Rgb {
    /// The red value.
    pub r: u8,
    /// The green value.
    pub g: u8,
    /// The blue value.
    pub b: u8,
}

impl Rgb {
    /// The hardware word for this color: green, red and blue packed into the
    /// low 24 bits of a 32-bit word, in that order, the top 8 bits zero.
    pub open spec fn spec_0grb(self) -> u32 {
        ((self.g as u32) << 16) | ((self.r as u32) << 8) | (self.b as u32)
    }

    /// Creates a new RGB value.
    pub fn new(r: u8, g: u8, b: u8) -> (c: Self)
        ensures
            c == (Rgb { r, g, b }),
    {
        Self { r, g, b }
    }

    /// Creates a new all-zero (black) RGB value.
    pub fn zero() -> (c: Self)
        ensures
            c == (Rgb { r: 0, g: 0, b: 0 }),
    {
        Self { r: 0, g: 0, b: 0 }
    }

    /// `self` as a 0-green-red-blue 32-bit hardware word.
    ///
    /// The word is always below `1 << 24`, so it can never be mistaken for
    /// the all-ones end-of-strip sentinel.
    pub fn to_0grb(self) -> (w: u32)
        ensures
            w == self.spec_0grb(),
            w < 0x1000000,
    {
        let w = (self.g as u32) << 16 | (self.r as u32) << 8 | (self.b as u32);
        proof {
            let gw = self.g as u32;
            let rw = self.r as u32;
            let bw = self.b as u32;
            assert((gw << 16 | rw << 8 | bw) < 0x1000000) by (bit_vector)
                requires
                    gw < 0x100 && rw < 0x100 && bw < 0x100,
            ;
        }
        w
    }
}

/// The mathematical value of a [`Matrix`]: its watermark and the full pixel
/// sequence.
#[verifier::ext_equal]
pub ghost struct MatrixView {
    /// The number of LEDs currently considered active.
    pub len: nat,
    /// The color of every LED position, active or not.
    pub rgb: Seq<Rgb>,
}

impl MatrixView {
    /// A well-formed matrix has exactly [`WS2812B_LED_MAX`] pixel slots and
    /// a watermark that does not exceed them.
    pub open spec fn wf(self) -> bool {
        self.rgb.len() == WS2812B_LED_MAX && self.len <= WS2812B_LED_MAX
    }

    /// The all-zero matrix: watermark zero, every pixel black.
    pub open spec fn zero() -> MatrixView {
        MatrixView {
            len: 0,
            rgb: Seq::new(WS2812B_LED_MAX as nat, |i: int| Rgb { r: 0, g: 0, b: 0 }),
        }
    }

    /// The matrix after setting LED `led` to color `c`: the pixel is
    /// overwritten and the watermark is raised to cover it, never lowered.
    pub open spec fn set_led(self, led: nat, c: Rgb) -> MatrixView {
        MatrixView {
            len: if self.len >= led + 1 { self.len } else { led + 1 },
            rgb: self.rgb.update(led as int, c),
        }
    }
}

/// One strip's current rendering state: a fixed-capacity pixel buffer plus
/// the "active length" watermark.
#[derive(Debug)]
pub struct Matrix {
    /// The number of LEDs to address: the watermark.
    pub len: usize,
    /// The RGB values, one per LED position.
    pub rgb: Vec<Rgb>,
}

impl View for Matrix {
    type V = MatrixView;

    open spec fn view(&self) -> MatrixView {
        MatrixView { len: self.len as nat, rgb: self.rgb@ }
    }
}

impl Matrix {
    /// A well-formed matrix, see [`MatrixView::wf`].
    pub open spec fn wf(self) -> bool {
        self@.wf()
    }

    /// Creates a new all-zero matrix.
    pub fn zero() -> (m: Self)
        ensures
            m@ == MatrixView::zero(),
            m.wf(),
    {
        let mut rgb: Vec<Rgb> = Vec::new();
        let mut i: usize = 0;
        while i < WS2812B_LED_MAX
            invariant
                i <= WS2812B_LED_MAX,
                rgb@.len() == i,
                forall|j: int| 0 <= j < i ==> rgb@[j] == (Rgb { r: 0, g: 0, b: 0 }),
            decreases WS2812B_LED_MAX - i,
        {
            rgb.push(Rgb::zero());
            i += 1;
        }
        let m = Matrix { len: 0, rgb };
        proof {
            assert(m@ =~= MatrixView::zero());
        }
        m
    }

    /// Sets an RGB value for an LED index.
    ///
    /// On success the pixel is overwritten and the watermark raised to cover
    /// it; the watermark never decreases, so repeated calls leave `len`
    /// monotonically non-decreasing whatever the order of indices.
    pub fn set(&mut self, index: usize, rgb: Rgb) -> (r: Result<(), Error>)
        ensures
            final(self)@.len >= old(self)@.len,
            old(self).wf() ==> final(self).wf(),
            match r {
                Ok(()) => index < old(self)@.rgb.len() && final(self)@ == old(self)@.set_led(
                    index as nat,
                    rgb,
                ),
                Err(e) => e == Error::LedIndexOutOfBounds && index >= old(self)@.rgb.len()
                    && *final(self) == *old(self),
            },
    {
        // Validate the index
        if index >= self.rgb.len() {
            return Err(Error::LedIndexOutOfBounds);
        }

        // Update the matrix
        if self.len < index + 1 {
            self.len = index + 1;
        }
        self.rgb[index] = rgb;
        proof {
            assert(self@ =~= old(self)@.set_led(index as nat, rgb));
        }
        Ok(())
    }
}

impl Clone for Matrix {
    /// Deep copy: the clone has the same watermark and the same pixels.
    fn clone(&self) -> (m: Self)
        ensures
            m@ == self@,
    {
        let mut rgb: Vec<Rgb> = Vec::new();
        let mut i: usize = 0;
        while i < self.rgb.len()
            invariant
                i <= self.rgb@.len(),
                rgb@ == self.rgb@.take(i as int),
            decreases self.rgb@.len() - i,
        {
            rgb.push(self.rgb[i]);
            proof {
                assert(rgb@ =~= self.rgb@.take(i + 1));
            }
            i += 1;
        }
        proof {
            assert(rgb@ =~= self.rgb@);
        }
        Matrix { len: self.len, rgb }
    }
}

/// The ordered set of all strips' matrices, one per hardware output
/// channel.
#[derive(Debug)]
pub struct StripSet {
    /// One matrix per output channel, indexed by strip index.
    pub strips: Vec<Matrix>,
}

impl View for StripSet {
    type V = Seq<MatrixView>;

    open spec fn view(&self) -> Seq<MatrixView> {
        self.strips@.map_values(|m: Matrix| m@)
    }
}

/// The all-zero strip set: [`WS2812B_STATEMACHINES`] all-zero matrices.
pub open spec fn zero_set() -> Seq<MatrixView> {
    Seq::new(WS2812B_STATEMACHINES as nat, |i: int| MatrixView::zero())
}

/// A well-formed strip set holds one well-formed matrix per output channel.
pub open spec fn set_wf(ss: Seq<MatrixView>) -> bool {
    ss.len() == WS2812B_STATEMACHINES && forall|i: int| 0 <= i < ss.len() ==> (
    #[trigger] ss[i]).wf()
}

impl StripSet {
    /// A well-formed strip set, see [`set_wf`].
    pub open spec fn wf(self) -> bool {
        set_wf(self@)
    }

    /// Creates a strip set of all-zero matrices, one per output channel.
    pub fn zero() -> (s: Self)
        ensures
            s@ == zero_set(),
            s.wf(),
    {
        let mut strips: Vec<Matrix> = Vec::new();
        let mut i: usize = 0;
        while i < WS2812B_STATEMACHINES
            invariant
                i <= WS2812B_STATEMACHINES,
                strips@.len() == i,
                forall|j: int| 0 <= j < i ==> (#[trigger] strips@[j])@ == MatrixView::zero(),
            decreases WS2812B_STATEMACHINES - i,
        {
            strips.push(Matrix::zero());
            i += 1;
        }
        let s = StripSet { strips };
        proof {
            assert(s@ =~= zero_set());
        }
        s
    }

    /// Sets LED `led` of strip `strip` to color `rgb`.
    ///
    /// The strip index is checked against the number of configured strips,
    /// the LED index against the strip's capacity; on success the one
    /// addressed matrix is mutated as by [`Matrix::set`] and every other
    /// matrix is untouched.
    pub fn set(&mut self, strip: usize, led: usize, rgb: Rgb) -> (r: Result<(), Error>)
        ensures
            final(self)@.len() == old(self)@.len(),
            old(self).wf() ==> final(self).wf(),
            match r {
                Ok(()) => strip < old(self)@.len() && led < old(self)@[strip as int].rgb.len()
                    && final(self)@ == old(self)@.update(
                    strip as int,
                    old(self)@[strip as int].set_led(led as nat, rgb),
                ),
                Err(e) => final(self)@ == old(self)@ && if strip >= old(self)@.len() {
                    e == Error::StripIndexInvalid
                } else {
                    e == Error::LedIndexOutOfBounds && led >= old(self)@[strip as int].rgb.len()
                },
            },
    {
        // Validate the strip index and select the matrix
        if strip >= self.strips.len() {
            return Err(Error::StripIndexInvalid);
        }
        let matrix = &mut self.strips[strip];
        match matrix.set(led, rgb) {
            Ok(()) => {
                proof {
                    assert(self@ =~= old(self)@.update(
                        strip as int,
                        old(self)@[strip as int].set_led(led as nat, rgb),
                    ));
                }
                Ok(())
            },
            Err(e) => {
                proof {
                    assert(self@ =~= old(self)@);
                }
                Err(e)
            },
        }
    }
}

impl Clone for StripSet {
    /// Deep copy: the clone holds a matrix-for-matrix copy of every strip.
    fn clone(&self) -> (s: Self)
        ensures
            s@ == self@,
    {
        let mut strips: Vec<Matrix> = Vec::new();
        let mut i: usize = 0;
        while i < self.strips.len()
            invariant
                i <= self.strips@.len(),
                strips@.len() == i,
                forall|j: int| 0 <= j < i ==> (#[trigger] strips@[j])@ == self.strips@[j]@,
            decreases self.strips@.len() - i,
        {
            strips.push(self.strips[i].clone());
            i += 1;
        }
        let s = StripSet { strips };
        proof {
            assert(s@ =~= self@);
        }
        s
    }
}

/// The matrix after setting a whole sequence of (LED index, color) pairs,
/// in order, each as by [`MatrixView::set_led`].
pub open spec fn set_leds(m: MatrixView, ops: Seq<(nat, Rgb)>) -> MatrixView
    decreases ops.len(),
{
    if ops.len() == 0 {
        m
    } else {
        set_leds(m.set_led(ops[0].0, ops[0].1), ops.skip(1))
    }
}

/// The watermark is monotonically non-decreasing under repeated `set`
/// calls on one matrix, whatever the order of the indices: setting any
/// sequence of (LED index, color) pairs never lowers `len`.
pub proof fn lemma_len_monotonic(m: MatrixView, ops: Seq<(nat, Rgb)>)
    ensures
        set_leds(m, ops).len >= m.len,
    decreases ops.len(),
{
    if ops.len() > 0 {
        lemma_len_monotonic(m.set_led(ops[0].0, ops[0].1), ops.skip(1));
    }
}

/// The words the feeder emits for one strip at one LED position: nothing
/// once the position is at or past the strip's watermark; the pixel's
/// hardware word otherwise; and, immediately after the last active pixel,
/// additionally the all-ones end-of-strip sentinel.
pub open spec fn strip_words_at(m: MatrixView, machine: usize, led: nat) -> Seq<(usize, u32)> {
    if led >= m.len {
        Seq::empty()
    } else if led + 1 == m.len {
        seq![(machine, m.rgb[led as int].spec_0grb()), (machine, u32::MAX)]
    } else {
        seq![(machine, m.rgb[led as int].spec_0grb())]
    }
}

/// The words the feeder emits at one LED position for the strips from index
/// `machine` upward, in strip order.
pub open spec fn row_words(ss: Seq<MatrixView>, led: nat, machine: int) -> Seq<(usize, u32)>
    decreases ss.len() - machine,
{
    if machine < 0 || machine >= ss.len() {
        Seq::empty()
    } else {
        strip_words_at(ss[machine], machine as usize, led) + row_words(ss, led, machine + 1)
    }
}

/// The words the feeder emits for the LED positions from `led` upward:
/// position-outer, strip-inner, so the output channels are fed in lockstep.
pub open spec fn frame_words_from(ss: Seq<MatrixView>, led: nat) -> Seq<(usize, u32)>
    decreases WS2812B_LED_MAX - led,
{
    if led >= WS2812B_LED_MAX {
        Seq::empty()
    } else {
        row_words(ss, led, 0) + frame_words_from(ss, led + 1)
    }
}

/// The complete ordered sequence of hardware words for one frame of a strip
/// set: for each LED position 0..[`WS2812B_LED_MAX`] and within it each
/// strip 0..[`WS2812B_STATEMACHINES`], the strip's pixel word while the
/// position is below the strip's watermark, followed by the all-ones
/// sentinel right after the last active pixel.
pub open spec fn frame_words(ss: Seq<MatrixView>) -> Seq<(usize, u32)> {
    frame_words_from(ss, 0)
}

/// Computes one feeder iteration: the ordered sequence of `(strip index,
/// hardware word)` writes that retransmit the whole strip set once.
///
/// Interleaving is position-outer, strip-inner, so all output channels are
/// fed at a comparable rate; each strip's last active pixel is followed
/// immediately by the all-ones end-of-strip sentinel, and a strip with
/// watermark zero contributes nothing at all.
pub fn feed_frame(state: &StripSet) -> (words: Vec<(usize, u32)>)
    requires
        state.wf(),
    ensures
        words@ == frame_words(state@),
{
    let mut words: Vec<(usize, u32)> = Vec::new();
    let mut led: usize = 0;
    while led < WS2812B_LED_MAX
        invariant
            state.wf(),
            led <= WS2812B_LED_MAX,
            frame_words(state@) == words@ + frame_words_from(state@, led as nat),
        decreases WS2812B_LED_MAX - led,
    {
        let ghost row_rest = frame_words_from(state@, led as nat + 1);
        proof {
            // One step of the position recursion: this row, then the rest.
            assert(words@ + frame_words_from(state@, led as nat) =~= words@ + row_words(
                state@,
                led as nat,
                0,
            ) + row_rest);
        }
        let mut machine: usize = 0;
        while machine < state.strips.len()
            invariant
                state.wf(),
                led < WS2812B_LED_MAX,
                machine <= state@.len(),
                row_rest == frame_words_from(state@, led as nat + 1),
                frame_words(state@) == words@ + row_words(state@, led as nat, machine as int)
                    + row_rest,
            decreases state@.len() - machine,
        {
            let ghost pre = words@;
            let m = &state.strips[machine];
            proof {
                assert(m@ == state@[machine as int]);
                assert(state@[machine as int].wf());
            }
            if led < m.len {
                words.push((machine, m.rgb[led].to_0grb()));
                if led + 1 == m.len {
                    words.push((machine, u32::MAX));
                }
            }
            proof {
                // The pushes are exactly this strip's words at this position.
                assert(words@ =~= pre + strip_words_at(state@[machine as int], machine, led as nat));
                // One step of the strip recursion.
                assert(pre + row_words(state@, led as nat, machine as int) + row_rest =~= words@
                    + row_words(state@, led as nat, machine as int + 1) + row_rest);
            }
            machine += 1;
        }
        proof {
            assert(words@ + row_words(state@, led as nat, state@.len() as int) + row_rest =~= words@
                + frame_words_from(state@, led as nat + 1));
        }
        led += 1;
    }
    proof {
        assert(words@ + frame_words_from(state@, WS2812B_LED_MAX as nat) =~= words@);
    }
    words
}

} // verus!
