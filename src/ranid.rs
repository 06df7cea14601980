use vstd::prelude::*;

use rand::Rng;

use crate::types::WindmillError;

verus! {

/// Size of the token alphabet: the ten digits and the 26 lowercase letters.
pub const TOKEN_RADIX: u32 = 36;

/// Largest value a token encodes: `TOKEN_RADIX` to the fifth power, minus one.
pub const TOKEN_MAX: u32 = 60466175;

/// How many random draws `RanIDs::get` makes before it reports exhaustion.
pub const MAX_DRAWS: u32 = 64;

/// The character of one base-36 digit: `0`-`9`, then `a`-`z`.
pub open spec fn digit_char(d: int) -> char {
    if d < 10 {
        (d + 48) as char
    } else {
        (d + 87) as char
    }
}

/// The five-character base-36 spelling of `x`, most significant digit first.
pub open spec fn token_of(x: int) -> Seq<char> {
    seq![
        digit_char(x / 36 / 36 / 36 / 36 % 36),
        digit_char(x / 36 / 36 / 36 % 36),
        digit_char(x / 36 / 36 % 36),
        digit_char(x / 36 % 36),
        digit_char(x % 36),
    ]
}

/// A value the generator may hand out.
pub open spec fn in_token_range(x: int) -> bool {
    1 <= x <= TOKEN_MAX
}

/// The values in `ids` are in range and pairwise distinct.
pub open spec fn issued_wf(ids: Seq<u32>) -> bool {
    &&& forall|i: int| 0 <= i < ids.len() ==> in_token_range(#[trigger] ids[i] as int)
    &&& forall|i: int, j: int|
        0 <= i < ids.len() && 0 <= j < ids.len() && i != j ==> #[trigger] ids[i] != #[trigger] ids[j]
}

proof fn lemma_digit_char_injective(a: int, b: int)
    requires
        0 <= a < 36,
        0 <= b < 36,
        digit_char(a) == digit_char(b),
    ensures
        a == b,
{
    assert((digit_char(a) as u32) == (digit_char(b) as u32));
}

/// Distinct values in the token range have distinct spellings.
pub proof fn lemma_token_of_injective(x: int, y: int)
    requires
        0 <= x <= TOKEN_MAX,
        0 <= y <= TOKEN_MAX,
        token_of(x) == token_of(y),
    ensures
        x == y,
{
    let tx = token_of(x);
    let ty = token_of(y);
    assert(tx[0] == ty[0] && tx[1] == ty[1] && tx[2] == ty[2] && tx[3] == ty[3] && tx[4] == ty[4]);
    let x1 = x / 36;
    let x2 = x1 / 36;
    let x3 = x2 / 36;
    let x4 = x3 / 36;
    let y1 = y / 36;
    let y2 = y1 / 36;
    let y3 = y2 / 36;
    let y4 = y3 / 36;
    assert(x4 < 36 && y4 < 36);
    lemma_digit_char_injective(x4 % 36, y4 % 36);
    lemma_digit_char_injective(x3 % 36, y3 % 36);
    lemma_digit_char_injective(x2 % 36, y2 % 36);
    lemma_digit_char_injective(x1 % 36, y1 % 36);
    lemma_digit_char_injective(x % 36, y % 36);
    assert(x4 == y4);
    assert(x3 == y3);
    assert(x2 == y2);
    assert(x1 == y1);
}

/// The character of base-36 digit `m`.
fn digit(m: u32) -> (c: char)
    requires
        m < 36,
    ensures
        c == digit_char(m as int),
{
    if m < 10 {
        ((m as u8) + 48) as char
    } else {
        ((m as u8) + 87) as char
    }
}

/// Relies on `String::push`: appends one character.
#[verifier::external_body]
fn push_char(s: &mut String, c: char)
    ensures
        final(s)@ == old(s)@.push(c),
{
    s.push(c)
}

/// Relies on `rand::Rng::gen_range` over `lo..=hi` with the thread-local generator:
/// a value between the two bounds, both included. The range must not be empty.
#[verifier::external_body]
fn draw(lo: u32, hi: u32) -> (r: u32)
    requires
        lo <= hi,
    ensures
        lo <= r <= hi,
{
    rand::thread_rng().gen_range(lo..=hi)
}

/// Spells `x` as a five-character base-36 token.
pub fn encode_token(x: u32) -> (r: String)
    requires
        x <= TOKEN_MAX,
    ensures
        r@ == token_of(x as int),
{
    let mut s = String::new();
    push_char(&mut s, digit(x / 36 / 36 / 36 / 36 % 36));
    push_char(&mut s, digit(x / 36 / 36 / 36 % 36));
    push_char(&mut s, digit(x / 36 / 36 % 36));
    push_char(&mut s, digit(x / 36 % 36));
    push_char(&mut s, digit(x % 36));
    assert(s@ =~= token_of(x as int));
    s
}

/// Generator of bidder tokens, private to one auction: remembers every value issued.
#[derive(Clone)]
pub struct RanIDs {
    ids: Vec<u32>,
}

impl View for RanIDs {
    type V = Seq<u32>;

    closed spec fn view(&self) -> Seq<u32> {
        self.ids@
    }
}

impl RanIDs {
    /// A generator that has issued nothing.
    pub fn new() -> (r: RanIDs)
        ensures
            r@ == Seq::<u32>::empty(),
    {
        RanIDs { ids: Vec::new() }
    }

    /// Whether `x` was issued already.
    pub fn contains(&self, x: u32) -> (r: bool)
        ensures
            r == self@.contains(x),
    {
        let mut i: usize = 0;
        while i < self.ids.len()
            invariant
                0 <= i <= self.ids@.len(),
                forall|k: int| 0 <= k < i ==> self.ids@[k] != x,
            decreases self.ids@.len() - i,
        {
            if self.ids[i] == x {
                assert(self@[i as int] == x);
                return true;
            }
            i += 1;
        }
        false
    }

    /// Issues `x` if it lies in the token range and was not issued before; returns its
    /// token, or `None` with nothing changed.
    pub fn claim(&mut self, x: u32) -> (r: Option<String>)
        requires
            issued_wf(old(self)@),
        ensures
            issued_wf(final(self)@),
            (in_token_range(x as int) && !old(self)@.contains(x)) ==> (r matches Some(
                t,
            ) && t@ == token_of(x as int)) && final(self)@ == old(self)@.push(x),
            !(in_token_range(x as int) && !old(self)@.contains(x)) ==> r is None && final(self)@
                == old(self)@,
    {
        if x < 1 || x > TOKEN_MAX || self.contains(x) {
            return None;
        }
        let t = encode_token(x);
        self.ids.push(x);
        assert(self@ == old(self)@.push(x));
        Some(t)
    }

    /// Issues a fresh token, drawn at random from the token range. After `MAX_DRAWS`
    /// draws that all hit issued values it takes the smallest value not yet issued. It
    /// fails with `WindmillError::Incomplete`, leaving the generator unchanged, exactly
    /// when every value of the token range was issued already.
    pub fn get(&mut self) -> (r: Result<String, WindmillError>)
        requires
            issued_wf(old(self)@),
        ensures
            issued_wf(final(self)@),
            r matches Ok(t) ==> exists|x: u32|
                in_token_range(x as int) && !old(self)@.contains(x) && final(self)@ == old(
                    self,
                )@.push(x) && #[trigger] token_of(x as int) == t@,
            r matches Err(e) ==> e == WindmillError::Incomplete && final(self)@ == old(self)@,
            r is Err <==> forall|x: u32| in_token_range(x as int) ==> #[trigger] old(self)@.contains(x),
    {
        let mut tries: u32 = 0;
        while tries < MAX_DRAWS
            invariant
                self@ == old(self)@,
                issued_wf(self@),
            decreases MAX_DRAWS - tries,
        {
            let x = draw(1, TOKEN_MAX);
            match self.claim(x) {
                Some(t) => {
                    return Ok(t);
                },
                None => {},
            }
            tries += 1;
        }
        let mut x: u32 = 1;
        while x <= TOKEN_MAX
            invariant
                1 <= x <= TOKEN_MAX + 1,
                self@ == old(self)@,
                issued_wf(self@),
                forall|y: u32| 1 <= y < x ==> #[trigger] old(self)@.contains(y),
            decreases TOKEN_MAX + 1 - x,
        {
            match self.claim(x) {
                Some(t) => {
                    return Ok(t);
                },
                None => {},
            }
            x += 1;
        }
        Err(WindmillError::Incomplete)
    }
}

impl Default for RanIDs {
    fn default() -> (r: RanIDs)
        ensures
            r@ == Seq::<u32>::empty(),
    {
        RanIDs::new()
    }
}

} // verus!
