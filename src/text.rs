use vstd::prelude::*;

verus! {

/// Relies on `String::push`: it appends one character.
#[verifier::external_body]
pub(crate) fn push_char(s: &mut String, c: char)
    ensures
        final(s)@ == old(s)@.push(c),
{
    s.push(c);
}

/// The characters whose codes are the bytes of `b`.
pub open spec fn latin1(b: Seq<u8>) -> Seq<char> {
    b.map_values(|x: u8| x as char)
}

/// A string holding the bytes `b[from..to]`, one character per byte.
pub fn latin1_string(b: &[u8], from: usize, to: usize) -> (r: String)
    requires
        from <= to <= b@.len(),
    ensures
        r@ == latin1(b@.subrange(from as int, to as int)),
{
    let mut r = String::new();
    let mut i = from;
    while i < to
        invariant
            from <= i <= to <= b@.len(),
            r@ == latin1(b@.subrange(from as int, i as int)),
        decreases to - i,
    {
        push_char(&mut r, b[i] as char);
        i = i + 1;
        assert(latin1(b@.subrange(from as int, i as int)) =~= latin1(
            b@.subrange(from as int, i - 1),
        ).push(b@[i - 1] as char));
    }
    r
}

/// The character of decimal digit `d`.
pub open spec fn digit_char(d: nat) -> char {
    ((48 + d) as u8) as char
}

/// The decimal digits of `n`, most significant first, without leading
/// zeros.
pub open spec fn decimal(n: nat) -> Seq<char>
    decreases n,
{
    if n < 10 {
        seq![digit_char(n)]
    } else {
        decimal(n / 10).push(digit_char(n % 10))
    }
}

/// Appends the decimal digits of `n`.
pub fn push_decimal(s: &mut String, n: u32)
    ensures
        final(s)@ == old(s)@ + decimal(n as nat),
    decreases n,
{
    if n >= 10 {
        push_decimal(s, n / 10);
    }
    let d = (n % 10) as u8;
    push_char(s, (48 + d) as char);
    proof {
        if n >= 10 {
            assert(decimal(n as nat) == decimal((n / 10) as nat).push(digit_char((n % 10) as nat)));
        } else {
            assert(decimal(n as nat) =~= seq![digit_char(n as nat)]);
        }
    }
    assert(final(s)@ =~= old(s)@ + decimal(n as nat));
}

/// The items joined by commas.
pub open spec fn json_list(items: Seq<Seq<char>>) -> Seq<char>
    decreases items.len(),
{
    if items.len() == 0 {
        Seq::empty()
    } else if items.len() == 1 {
        items[0]
    } else {
        json_list(items.drop_last()) + ","@ + items.last()
    }
}

/// One more item joins the list after a comma, the first one alone.
pub(crate) proof fn lemma_json_list_step(items: Seq<Seq<char>>, i: int)
    requires
        0 <= i < items.len(),
    ensures
        json_list(items.take(i + 1)) == if i == 0 {
            items[0]
        } else {
            json_list(items.take(i)) + ","@ + items[i]
        },
{
    assert(items.take(i + 1).drop_last() =~= items.take(i));
    assert(items.take(i + 1).last() == items[i]);
    if i == 0 {
        assert(items.take(1)[0] == items[0]);
    }
}

} // verus!
