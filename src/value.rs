use std::rc::Rc;
use vstd::prelude::*;

verus! {

/// Longest string kept inline in a value.
pub const SHORT_STR_MAX: usize = 14;

/// Shortest string kept in a fixed-capacity shared buffer.
pub const MID_STR_MIN: usize = 15;

/// Longest string kept in a fixed-capacity shared buffer.
pub const MID_STR_MAX: usize = 47;

/// A decimal number with a fractional part: `int_part + frac / 10^frac_len`.
///
/// Literals are kept normalized (no trailing zero digit in `frac`), so two
/// literals with the same numeric value have equal fields.
#[derive(Debug, Clone, Copy, PartialEq, Eq, Structural)]
pub struct Decimal {
    pub int_part: i64,
    pub frac: u64,
    pub frac_len: usize,
}

/// The natively implemented functions.
#[derive(Debug, Clone, Copy, PartialEq, Eq, Structural)]
pub enum Native {
    /// Writes its argument, followed by a newline.
    Print,
}

/// Between `MIN` and `N` bytes stored in place, with their length.
#[derive(Debug, Clone, Copy)]
pub struct ByteBuf<const MIN: usize, const N: usize> {
    len: u8,
    buf: [u8; N],
}

impl<const MIN: usize, const N: usize> ByteBuf<MIN, N> {
    #[verifier::type_invariant]
    spec fn inv(self) -> bool {
        MIN <= self.len <= N
    }

    /// The bytes held.
    pub closed spec fn bytes(self) -> Seq<u8> {
        self.buf@.subrange(0, self.len as int)
    }

    pub fn new(v: &[u8]) -> (r: Self)
        requires
            MIN <= v@.len() <= N,
            N < 256,
        ensures
            r.bytes() == v@,
    {
        let mut buf = [0u8; N];
        let mut i: usize = 0;
        while i < v.len()
            invariant
                i <= v@.len() <= N,
                buf@.len() == N,
                forall|k: int| 0 <= k < i ==> buf@[k] == v@[k],
            decreases v@.len() - i,
        {
            buf[i] = v[i];
            i += 1;
        }
        let r = ByteBuf { len: v.len() as u8, buf };
        assert(r.bytes() =~= v@);
        r
    }

    /// The bytes held, copied out.
    pub fn to_vec(&self) -> (r: Vec<u8>)
        ensures
            r@ == self.bytes(),
    {
        proof {
            use_type_invariant(self);
        }
        let mut r: Vec<u8> = Vec::new();
        let mut i: usize = 0;
        while i < self.len as usize
            invariant
                i <= self.len,
                self.len <= N,
                self.buf@.len() == N,
                r@ == self.buf@.subrange(0, i as int),
            decreases self.len - i,
        {
            r.push(self.buf[i]);
            i += 1;
            assert(r@ =~= self.buf@.subrange(0, i as int));
        }
        r
    }

    /// The number of bytes held lies in `MIN..=N`; it does nothing at run time.
    pub fn len_in_range(&self)
        ensures
            MIN <= self.bytes().len() <= N,
    {
        proof {
            use_type_invariant(self);
        }
    }

    /// Whether both buffers hold the same bytes.
    pub fn same_bytes(&self, other: &Self) -> (r: bool)
        ensures
            r == (self.bytes() == other.bytes()),
    {
        proof {
            use_type_invariant(self);
            use_type_invariant(other);
        }
        prefix_eq(self.buf.as_slice(), self.len as usize, other.buf.as_slice(), other.len as usize)
    }
}

/// Whether the first `la` bytes of `a` equal the first `lb` bytes of `b`.
pub fn prefix_eq(a: &[u8], la: usize, b: &[u8], lb: usize) -> (r: bool)
    requires
        la <= a@.len(),
        lb <= b@.len(),
    ensures
        r == (a@.subrange(0, la as int) == b@.subrange(0, lb as int)),
{
    if la != lb {
        assert(a@.subrange(0, la as int).len() != b@.subrange(0, lb as int).len());
        return false;
    }
    let mut i: usize = 0;
    while i < la
        invariant
            la == lb,
            la <= a@.len(),
            lb <= b@.len(),
            i <= la,
            forall|k: int| 0 <= k < i ==> a@[k] == b@[k],
        decreases la - i,
    {
        if a[i] != b[i] {
            assert(a@.subrange(0, la as int)[i as int] != b@.subrange(0, lb as int)[i as int]);
            return false;
        }
        i += 1;
    }
    assert(a@.subrange(0, la as int) =~= b@.subrange(0, lb as int));
    true
}

/// A fresh vector holding the bytes of `s`.
pub fn copy_bytes(s: &[u8]) -> (r: Vec<u8>)
    ensures
        r@ == s@,
{
    let mut r: Vec<u8> = Vec::new();
    let mut i: usize = 0;
    while i < s.len()
        invariant
            i <= s@.len(),
            r@ == s@.subrange(0, i as int),
        decreases s@.len() - i,
    {
        r.push(s[i]);
        i += 1;
        assert(r@ =~= s@.subrange(0, i as int));
    }
    assert(s@.subrange(0, s@.len() as int) =~= s@);
    r
}

/// A string too long for the fixed-capacity buffers.
#[derive(Debug)]
pub struct LongBuf {
    bytes: Vec<u8>,
}

impl LongBuf {
    #[verifier::type_invariant]
    spec fn inv(self) -> bool {
        self.bytes@.len() > MID_STR_MAX
    }

    /// The bytes held.
    pub closed spec fn bytes(self) -> Seq<u8> {
        self.bytes@
    }

    pub fn new(v: Vec<u8>) -> (r: Self)
        requires
            v@.len() > MID_STR_MAX,
        ensures
            r.bytes() == v@,
    {
        LongBuf { bytes: v }
    }

    /// Longer than any fixed-capacity buffer; it does nothing at run time.
    pub fn len_in_range(&self)
        ensures
            self.bytes().len() > MID_STR_MAX,
    {
        proof {
            use_type_invariant(self);
        }
    }

    /// The bytes held, borrowed.
    pub fn as_slice(&self) -> (r: &[u8])
        ensures
            r@ == self.bytes(),
    {
        self.bytes.as_slice()
    }
}

/// A runtime value.
///
/// Strings take one of three forms, chosen by length: inline for at most
/// `SHORT_STR_MAX` bytes, a shared buffer of capacity `MID_STR_MAX` for at most
/// `MID_STR_MAX` bytes, a shared growable buffer beyond. The buffers' invariants
/// make the form a function of the length.
#[derive(Debug)]
pub enum Value {
    Nil,
    Boolean(bool),
    Integer(i64),
    Float(Decimal),
    Function(Native),
    ShortStr(ByteBuf<0, SHORT_STR_MAX>),
    MidStr(Rc<ByteBuf<MID_STR_MIN, MID_STR_MAX>>),
    LongStr(Rc<LongBuf>),
}

/// What a value means, with the three forms of strings merged.
pub enum ValueView {
    Nil,
    Boolean(bool),
    Integer(int),
    Float(Decimal),
    Function(Native),
    Str(Seq<u8>),
}

impl View for Value {
    type V = ValueView;

    open spec fn view(&self) -> ValueView {
        match self {
            Value::Nil => ValueView::Nil,
            Value::Boolean(b) => ValueView::Boolean(*b),
            Value::Integer(i) => ValueView::Integer(*i as int),
            Value::Float(d) => ValueView::Float(*d),
            Value::Function(f) => ValueView::Function(*f),
            Value::ShortStr(b) => ValueView::Str(b.bytes()),
            Value::MidStr(b) => ValueView::Str((**b).bytes()),
            Value::LongStr(b) => ValueView::Str((**b).bytes()),
        }
    }
}

/// Relies on `Rc::clone`: the copy shares the same contents.
#[verifier::external_body]
fn share<T>(r: &Rc<T>) -> (c: Rc<T>)
    ensures
        c == *r,
{
    Rc::clone(r)
}

impl Clone for Value {
    /// A copy in constant time: long strings are shared, not copied.
    fn clone(&self) -> (r: Self)
        ensures
            r == *self,
    {
        match self {
            Value::Nil => Value::Nil,
            Value::Boolean(b) => Value::Boolean(*b),
            Value::Integer(i) => Value::Integer(*i),
            Value::Float(d) => Value::Float(*d),
            Value::Function(f) => Value::Function(*f),
            Value::ShortStr(b) => Value::ShortStr(*b),
            Value::MidStr(b) => Value::MidStr(share(b)),
            Value::LongStr(b) => Value::LongStr(share(b)),
        }
    }
}

impl Value {
    /// A string held in each form has a length in that form's range.
    pub open spec fn form_ok(&self) -> bool {
        match self {
            Value::ShortStr(x) => x.bytes().len() <= SHORT_STR_MAX,
            Value::MidStr(x) => MID_STR_MIN <= (**x).bytes().len() <= MID_STR_MAX,
            Value::LongStr(x) => (**x).bytes().len() > MID_STR_MAX,
            _ => true,
        }
    }

    /// Every value has its form's length; it does nothing at run time.
    pub fn form_in_range(&self)
        ensures
            self.form_ok(),
    {
        match self {
            Value::ShortStr(x) => x.len_in_range(),
            Value::MidStr(x) => (**x).len_in_range(),
            Value::LongStr(x) => (**x).len_in_range(),
            _ => {},
        }
    }

    /// The string value holding `v`, in the form its length calls for.
    pub fn from_bytes(v: Vec<u8>) -> (r: Value)
        ensures
            r@ == ValueView::Str(v@),
    {
        if v.len() <= SHORT_STR_MAX {
            Value::ShortStr(ByteBuf::new(v.as_slice()))
        } else if v.len() <= MID_STR_MAX {
            Value::MidStr(Rc::new(ByteBuf::new(v.as_slice())))
        } else {
            Value::LongStr(Rc::new(LongBuf::new(v)))
        }
    }

    /// The bytes of a string value; `None` for any other value.
    pub fn str_bytes(&self) -> (r: Option<Vec<u8>>)
        ensures
            match self@ {
                ValueView::Str(s) => r.is_some() && r.unwrap()@ == s,
                _ => r.is_none(),
            },
    {
        match self {
            Value::ShortStr(b) => Some(b.to_vec()),
            Value::MidStr(b) => Some(b.to_vec()),
            Value::LongStr(b) => {
                Some(copy_bytes(b.as_slice()))
            },
            _ => None,
        }
    }
}

/// Whether `a` and `b` hold the same bytes.
pub fn bytes_eq(a: &[u8], b: &[u8]) -> (r: bool)
    ensures
        r == (a@ == b@),
{
    assert(a@.subrange(0, a@.len() as int) =~= a@);
    assert(b@.subrange(0, b@.len() as int) =~= b@);
    prefix_eq(a, a.len(), b, b.len())
}

impl PartialEq for Value {
    /// Structural equality, form by form; functions compare by identity.
    fn eq(&self, other: &Value) -> (r: bool) {
        match (self, other) {
            (Value::Nil, Value::Nil) => true,
            (Value::Boolean(a), Value::Boolean(b)) => *a == *b,
            (Value::Integer(a), Value::Integer(b)) => *a == *b,
            (Value::Float(a), Value::Float(b)) => *a == *b,
            (Value::Function(a), Value::Function(b)) => *a == *b,
            (Value::ShortStr(a), Value::ShortStr(b)) => a.same_bytes(b),
            (Value::MidStr(a), Value::MidStr(b)) => (**a).same_bytes(&**b),
            (Value::LongStr(a), Value::LongStr(b)) => bytes_eq((**a).as_slice(), (**b).as_slice()),
            _ => {
                self.form_in_range();
                other.form_in_range();
                false
            },
        }
    }
}

impl vstd::std_specs::cmp::PartialEqSpecImpl for Value {
    open spec fn obeys_eq_spec() -> bool {
        true
    }

    open spec fn eq_spec(&self, other: &Value) -> bool {
        self@ == other@
    }
}

/// The ASCII digit for `d < 10`.
pub open spec fn digit(d: nat) -> u8 {
    (48 + d) as u8
}

/// The decimal digits of `n`, without leading zeros.
pub open spec fn nat_text(n: nat) -> Seq<u8>
    decreases n,
{
    if n < 10 {
        seq![digit(n)]
    } else {
        nat_text(n / 10).push(digit(n % 10))
    }
}

/// The decimal text of `i`, with a leading `-` when negative.
pub open spec fn int_text(i: int) -> Seq<u8> {
    if i < 0 {
        seq!['-' as u8] + nat_text((-i) as nat)
    } else {
        nat_text(i as nat)
    }
}

/// The last `k` decimal digits of `n`, with leading zeros.
pub open spec fn fixed_digits(n: nat, k: nat) -> Seq<u8>
    decreases k,
{
    if k == 0 {
        seq![]
    } else {
        fixed_digits(n / 10, (k - 1) as nat).push(digit(n % 10))
    }
}

/// The text of a decimal: its integer part, a point, and its fraction
/// digits, or a single `0` where there are none.
pub open spec fn decimal_text(d: Decimal) -> Seq<u8> {
    int_text(d.int_part as int) + seq!['.' as u8] + if d.frac_len == 0 {
        seq!['0' as u8]
    } else {
        fixed_digits(d.frac as nat, d.frac_len as nat)
    }
}

/// How `print` renders a value.
pub open spec fn display(v: ValueView) -> Seq<u8> {
    match v {
        ValueView::Nil => seq!['n' as u8, 'i' as u8, 'l' as u8],
        ValueView::Boolean(true) => seq!['t' as u8, 'r' as u8, 'u' as u8, 'e' as u8],
        ValueView::Boolean(false) => seq!['f' as u8, 'a' as u8, 'l' as u8, 's' as u8, 'e' as u8],
        ValueView::Integer(i) => int_text(i),
        ValueView::Float(d) => decimal_text(d),
        ValueView::Function(_) => seq!['f' as u8, 'u' as u8, 'n' as u8, 'c' as u8, 't' as u8, 'i' as u8, 'o' as u8, 'n' as u8],
        ValueView::Str(s) => s,
    }
}

/// Appends the decimal digits of `n`.
fn push_nat(out: &mut Vec<u8>, n: u64)
    ensures
        final(out)@ == old(out)@ + nat_text(n as nat),
    decreases n,
{
    if n >= 10 {
        push_nat(out, n / 10);
    }
    out.push(48 + (n % 10) as u8);
    assert(final(out)@ =~= old(out)@ + nat_text(n as nat));
}

/// Appends the last `k` decimal digits of `n`.
fn push_fixed(out: &mut Vec<u8>, n: u64, k: usize)
    ensures
        final(out)@ == old(out)@ + fixed_digits(n as nat, k as nat),
    decreases k,
{
    if k > 0 {
        push_fixed(out, n / 10, k - 1);
        out.push(48 + (n % 10) as u8);
    }
    assert(final(out)@ =~= old(out)@ + fixed_digits(n as nat, k as nat));
}

/// Appends the decimal text of `i`.
fn push_int(out: &mut Vec<u8>, i: i64)
    ensures
        final(out)@ == old(out)@ + int_text(i as int),
{
    if i < 0 {
        out.push('-' as u8);
        let m: u64 = if i == i64::MIN {
            9223372036854775808u64
        } else {
            (-i) as u64
        };
        push_nat(out, m);
        assert(final(out)@ =~= old(out)@ + int_text(i as int));
    } else {
        push_nat(out, i as u64);
    }
}

/// Appends the bytes of `s`.
fn push_all(out: &mut Vec<u8>, s: &[u8])
    ensures
        final(out)@ == old(out)@ + s@,
{
    let mut i: usize = 0;
    while i < s.len()
        invariant
            i <= s@.len(),
            out@ == old(out)@ + s@.subrange(0, i as int),
        decreases s@.len() - i,
    {
        out.push(s[i]);
        i += 1;
        assert(out@ =~= old(out)@ + s@.subrange(0, i as int));
    }
    assert(s@.subrange(0, s@.len() as int) =~= s@);
}

impl Value {
    /// The text that `print` writes for this value (without the newline).
    pub fn to_text(&self) -> (r: Vec<u8>)
        ensures
            r@ == display(self@),
    {
        let mut out: Vec<u8> = Vec::new();
        match self {
            Value::Nil => {
                push_all(&mut out, &['n' as u8, 'i' as u8, 'l' as u8]);
            },
            Value::Boolean(b) => {
                if *b {
                    push_all(&mut out, &['t' as u8, 'r' as u8, 'u' as u8, 'e' as u8]);
                } else {
                    push_all(&mut out, &['f' as u8, 'a' as u8, 'l' as u8, 's' as u8, 'e' as u8]);
                }
            },
            Value::Integer(i) => push_int(&mut out, *i),
            Value::Float(d) => {
                push_int(&mut out, d.int_part);
                out.push('.' as u8);
                if d.frac_len == 0 {
                    out.push('0' as u8);
                } else {
                    push_fixed(&mut out, d.frac, d.frac_len);
                }
            },
            Value::Function(_) => {
                push_all(&mut out, &['f' as u8, 'u' as u8, 'n' as u8, 'c' as u8, 't' as u8, 'i' as u8, 'o' as u8, 'n' as u8]);
            },
            Value::ShortStr(b) => {
                out = b.to_vec();
            },
            Value::MidStr(b) => {
                out = b.to_vec();
            },
            Value::LongStr(b) => {
                out = copy_bytes((**b).as_slice());
            },
        }
        assert(out@ =~= display(self@));
        out
    }
}

} // verus!
