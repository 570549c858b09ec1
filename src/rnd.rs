//! A small xorshift random stream, owned by its caller.
use vstd::prelude::*;

verus! {

/// One xorshift step: `s ^= s << 7; s ^= s >> 9`.
pub open spec fn step(s: u64) -> u64 {
    let a = s ^ (s << 7u64);
    a ^ (a >> 9u64)
}

/// A nonzero state never steps to zero.
pub proof fn lemma_step_nonzero(s: u64)
    requires
        s != 0,
    ensures
        step(s) != 0,
{
    assert(s != 0 ==> (s ^ (s << 7u64)) != 0) by (bit_vector);
    let a = s ^ (s << 7u64);
    assert(a != 0 ==> (a ^ (a >> 9u64)) != 0) by (bit_vector);
}

/// Relies on std::time::SystemTime: the whole seconds since the Unix epoch,
/// or 0 where the clock stands before it.
#[verifier::external_body]
fn clock_secs() -> (r: u64) {
    match std::time::SystemTime::now().duration_since(std::time::UNIX_EPOCH) {
        Ok(d) => d.as_secs(),
        Err(_) => 0,
    }
}

/// A nonzero seed from the clock: its seconds, or 1 where it reads 0.
fn clock_seed() -> (r: u64)
    ensures
        r != 0,
{
    let t = clock_secs();
    if t == 0 {
        1
    } else {
        t
    }
}

/// The state of a random stream. A zero state is reseeded from the clock.
pub struct Rng {
    state: u64,
}

impl View for Rng {
    type V = u64;

    closed spec fn view(&self) -> u64 {
        self.state
    }
}

impl Rng {
    /// A stream seeded with `seed`; the seed 0 takes the clock instead (and
    /// 1 where the clock reads 0).
    pub fn init(seed: usize) -> (r: Rng)
        ensures
            seed != 0 ==> r@ == seed as u64,
            r@ != 0,
    {
        if seed == 0 {
            Rng { state: clock_seed() }
        } else {
            Rng { state: seed as u64 }
        }
    }

    /// Advances the stream by one xorshift step and returns the new state.
    pub fn gen(&mut self) -> (r: u64)
        ensures
            r == final(self)@,
            old(self)@ != 0 ==> final(self)@ == step(old(self)@),
            final(self)@ != 0,
    {
        if self.state == 0 {
            self.state = clock_seed();
        }
        proof {
            lemma_step_nonzero(self.state);
        }
        let s = self.state;
        let a = s ^ (s << 7u64);
        self.state = a ^ (a >> 9u64);
        self.state
    }

    /// A value in `[a, b)`: the next draw modulo `b - a`, plus `a`.
    pub fn gen_range(&mut self, a: usize, b: usize) -> (r: usize)
        requires
            a < b,
        ensures
            a <= r < b,
            old(self)@ != 0 ==> final(self)@ == step(old(self)@),
            old(self)@ != 0 ==> r == (step(old(self)@) % ((b - a) as u64)) + a,
            old(self)@ != 0 ==> final(self)@ != 0,
    {
        let w = (b - a) as u64;
        let v = self.gen() % w;
        v as usize + a
    }

    /// The low bit of the next draw.
    pub fn gen_bool(&mut self) -> (r: bool)
        ensures
            old(self)@ != 0 ==> final(self)@ == step(old(self)@),
            old(self)@ != 0 ==> r == (step(old(self)@) & 1u64 == 1u64),
            old(self)@ != 0 ==> final(self)@ != 0,
    {
        self.gen() & 1 == 1
    }

    /// The next draw modulo 1000: the thousandths of a value in `[0, 1)`.
    pub fn gen_milli(&mut self) -> (r: u64)
        ensures
            r < 1000,
            old(self)@ != 0 ==> final(self)@ == step(old(self)@),
            old(self)@ != 0 ==> r == step(old(self)@) % 1000,
            old(self)@ != 0 ==> final(self)@ != 0,
    {
        self.gen() % 1000
    }
    /// A value of magnitude below `a`, negated when a second draw has its low bit set.
    pub fn gen_range_isize(&mut self, a: usize) -> (r: isize)
        requires
            0 < a,
            a - 1 <= isize::MAX,
        ensures
            old(self)@ != 0 ==> final(self)@ == step(step(old(self)@)),
            old(self)@ != 0 ==> ({
                let m = (step(old(self)@) % (a as u64)) as int;
                if step(step(old(self)@)) & 1u64 == 1u64 {
                    r == -m
                } else {
                    r == m
                }
            }),
            old(self)@ != 0 ==> final(self)@ != 0,
            -(a as int) < r < a,
    {
        let mut x = (self.gen() % (a as u64)) as isize;
        if self.gen_bool() {
            x = -x;
        }
        x
    }

    /// A value below `a`, replaced by its two's complement negation (modulo
    /// `usize::MAX + 1`) when a second draw has its low bit set.
    pub fn gen_range_neg_wrapping(&mut self, a: usize) -> (r: usize)
        requires
            0 < a,
        ensures
            old(self)@ != 0 ==> final(self)@ == step(step(old(self)@)),
            old(self)@ != 0 ==> ({
                let m = (step(old(self)@) % (a as u64)) as int;
                if step(step(old(self)@)) & 1u64 == 1u64 {
                    r as int == (if m == 0 { 0 } else { usize::MAX as int + 1 - m })
                } else {
                    r == m
                }
            }),
            old(self)@ != 0 ==> final(self)@ != 0,
            r < a || usize::MAX as int + 1 - r < a,
    {
        let mut x = (self.gen() % (a as u64)) as usize;
        if self.gen_bool() {
            if x != 0 {
                x = usize::MAX - x + 1;
            }
        }
        x
    }
}

} // verus!
