use vstd::prelude::*;

verus! {

/// A function to sample, as text in which every letter stands for the
/// variable, and how many samples to take on each side of zero.
pub struct GraphInput {
    y: String,
    amt: i32,
}

impl GraphInput {
    /// The function's text.
    pub closed spec fn function(&self) -> Seq<char> {
        self.y@
    }

    /// How many samples to take on each side of zero.
    pub closed spec fn amount(&self) -> i32 {
        self.amt
    }

    // GraphInput constructor.
    pub fn new(y: String, amt: i32) -> (r: Self)
        ensures
            r.function() == y@,
            r.amount() == amt,
    {
        Self { y, amt }
    }

    pub fn clear_y(&mut self)
        ensures
            final(self).function() == Seq::<char>::empty(),
            final(self).amount() == old(self).amount(),
    {
        self.y = String::new();
    }

    pub fn get_y(&self) -> (r: String)
        ensures
            r@ == self.function(),
    {
        self.y.clone()
    }

    pub fn get_amt(&self) -> (r: i32)
        ensures
            r == self.amount(),
    {
        self.amt
    }
}

/// Whether `c` has Unicode's Alphabetic property, as `char::is_alphabetic` says.
pub uninterp spec fn alphabetic(c: char) -> bool;

/// Relies on `char::is_alphabetic`: whether `c` has the Alphabetic property.
#[verifier::external_body]
fn is_letter(c: char) -> (r: bool)
    ensures
        r == alphabetic(c),
{
    c.is_alphabetic()
}

/// The decimal digit for `d`, for `d < 10`.
pub open spec fn digit_char(d: nat) -> char {
    if d == 0 {
        '0'
    } else if d == 1 {
        '1'
    } else if d == 2 {
        '2'
    } else if d == 3 {
        '3'
    } else if d == 4 {
        '4'
    } else if d == 5 {
        '5'
    } else if d == 6 {
        '6'
    } else if d == 7 {
        '7'
    } else if d == 8 {
        '8'
    } else {
        '9'
    }
}

/// The decimal digits of `n`, most significant first, without leading zeros.
pub open spec fn digits(n: nat) -> Seq<char>
    decreases n,
{
    if n < 10 {
        seq![digit_char(n)]
    } else {
        digits(n / 10).push(digit_char(n % 10))
    }
}

/// `n` in decimal, with a `-` before a negative number.
pub open spec fn decimal(n: int) -> Seq<char> {
    if n < 0 {
        seq!['-'] + digits((-n) as nat)
    } else {
        digits(n as nat)
    }
}

/// The text that stands for a letter at sample `x`: its decimal form, in
/// parentheses where it is negative, so that its `-` is read as part of it.
pub open spec fn sample_text(x: int) -> Seq<char> {
    if x < 0 {
        seq!['('] + decimal(x) + seq![')']
    } else {
        decimal(x)
    }
}

/// `template` with each character marked in `letters` replaced by `sample`.
pub open spec fn fill(template: Seq<char>, letters: Seq<bool>, sample: Seq<char>) -> Seq<char>
    decreases template.len(),
{
    if template.len() == 0 || letters.len() != template.len() {
        Seq::empty()
    } else {
        fill(template.drop_last(), letters.drop_last(), sample) + if letters.last() {
            sample
        } else {
            seq![template.last()]
        }
    }
}

/// Which characters of `s` are letters.
pub open spec fn letters_of(s: Seq<char>) -> Seq<bool> {
    Seq::new(s.len(), |i: int| alphabetic(s[i]))
}

fn push_digits(out: &mut Vec<char>, n: u32)
    ensures
        final(out)@ == old(out)@ + digits(n as nat),
    decreases n,
{
    if n >= 10 {
        push_digits(out, n / 10);
    }
    let d = n % 10;
    let c = if d == 0 {
        '0'
    } else if d == 1 {
        '1'
    } else if d == 2 {
        '2'
    } else if d == 3 {
        '3'
    } else if d == 4 {
        '4'
    } else if d == 5 {
        '5'
    } else if d == 6 {
        '6'
    } else if d == 7 {
        '7'
    } else if d == 8 {
        '8'
    } else {
        '9'
    };
    out.push(c);
    assert(out@ =~= old(out)@ + digits(n as nat));
}

/// The text that stands for a letter at sample `x`.
pub fn sample_chars(x: i32) -> (r: Vec<char>)
    ensures
        r@ == sample_text(x as int),
{
    let mut out: Vec<char> = Vec::new();
    if x < 0 {
        out.push('(');
        out.push('-');
        let m: u32 = (-(x as i64)) as u32;
        push_digits(&mut out, m);
        out.push(')');
        assert(out@ =~= sample_text(x as int));
    } else {
        push_digits(&mut out, x as u32);
        assert(out@ =~= sample_text(x as int));
    }
    out
}

/// `template` with each character marked in `letters` replaced by the text
/// of sample `x`.
pub fn fill_in(template: &Vec<char>, letters: &Vec<bool>, x: i32) -> (r: Vec<char>)
    requires
        letters.len() == template.len(),
    ensures
        r@ == fill(template@, letters@, sample_text(x as int)),
{
    let sample = sample_chars(x);
    let mut out: Vec<char> = Vec::new();
    let mut i: usize = 0;
    while i < template.len()
        invariant
            letters.len() == template.len(),
            i <= template.len(),
            sample@ == sample_text(x as int),
            out@ == fill(template@.take(i as int), letters@.take(i as int), sample@),
        decreases template.len() - i,
    {
        proof {
            assert(template@.take(i as int + 1).drop_last() =~= template@.take(i as int));
            assert(letters@.take(i as int + 1).drop_last() =~= letters@.take(i as int));
        }
        if letters[i] {
            let mut j: usize = 0;
            let ghost base = out@;
            while j < sample.len()
                invariant
                    j <= sample.len(),
                    out@ == base + sample@.take(j as int),
                decreases sample.len() - j,
            {
                out.push(sample[j]);
                j = j + 1;
                assert(out@ =~= base + sample@.take(j as int));
            }
            assert(sample@.take(j as int) =~= sample@);
        } else {
            out.push(template[i]);
        }
        i = i + 1;
        assert(out@ =~= fill(template@.take(i as int), letters@.take(i as int), sample@));
    }
    assert(template@.take(i as int) =~= template@);
    assert(letters@.take(i as int) =~= letters@);
    out
}

/// The expression for sample `x` of a function: every letter of `template`
/// replaced by the text of `x`.
pub fn substitute(template: &str, x: i32) -> (r: Vec<char>)
    ensures
        r@ == fill(template@, letters_of(template@), sample_text(x as int)),
{
    let chars = crate::scan::chars_of(template);
    let mut letters: Vec<bool> = Vec::new();
    let mut i: usize = 0;
    while i < chars.len()
        invariant
            i <= chars.len(),
            chars@ == template@,
            letters@ == letters_of(template@).take(i as int),
        decreases chars.len() - i,
    {
        letters.push(is_letter(chars[i]));
        i = i + 1;
        assert(letters@ =~= letters_of(template@).take(i as int));
    }
    assert(letters_of(template@).take(i as int) =~= letters_of(template@));
    fill_in(&chars, &letters, x)
}

} // verus!
