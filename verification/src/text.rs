//! The message that names two roots which do not agree.
use vstd::prelude::*;

verus! {

/// A decimal digit.
pub open spec fn digit_text(d: nat) -> Seq<char> {
    if d == 0 {
        "0"@
    } else if d == 1 {
        "1"@
    } else if d == 2 {
        "2"@
    } else if d == 3 {
        "3"@
    } else if d == 4 {
        "4"@
    } else if d == 5 {
        "5"@
    } else if d == 6 {
        "6"@
    } else if d == 7 {
        "7"@
    } else if d == 8 {
        "8"@
    } else {
        "9"@
    }
}

/// A number in decimal, without leading zeros.
pub open spec fn decimal_text(n: nat) -> Seq<char>
    decreases n,
{
    if n < 10 {
        digit_text(n)
    } else {
        decimal_text(n / 10) + digit_text(n % 10)
    }
}

/// Bytes in decimal, separated by commas.
pub open spec fn items_text(s: Seq<u8>) -> Seq<char>
    decreases s.len(),
{
    if s.len() == 0 {
        Seq::empty()
    } else if s.len() == 1 {
        decimal_text(s[0] as nat)
    } else {
        items_text(s.drop_last()) + ", "@ + decimal_text(s.last() as nat)
    }
}

/// Bytes as a bracketed list.
pub open spec fn list_text(s: Seq<u8>) -> Seq<char> {
    "["@ + items_text(s) + "]"@
}

/// What is reported when a frame builds on another root than the receiver's.
pub open spec fn mismatch_text(client: Seq<u8>, ours: Seq<u8>) -> Seq<char> {
    "base_root mismatch: client base "@ + list_text(client) + " != our root "@ + list_text(ours)
        + "; cold start required"@
}

fn push_digit(out: &mut String, d: u8)
    requires
        d < 10,
    ensures
        final(out)@ == old(out)@ + digit_text(d as nat),
{
    if d == 0 {
        out.append("0");
    } else if d == 1 {
        out.append("1");
    } else if d == 2 {
        out.append("2");
    } else if d == 3 {
        out.append("3");
    } else if d == 4 {
        out.append("4");
    } else if d == 5 {
        out.append("5");
    } else if d == 6 {
        out.append("6");
    } else if d == 7 {
        out.append("7");
    } else if d == 8 {
        out.append("8");
    } else {
        out.append("9");
    }
}

fn push_decimal(out: &mut String, n: u8)
    ensures
        final(out)@ == old(out)@ + decimal_text(n as nat),
    decreases n,
{
    if n < 10 {
        push_digit(out, n);
    } else {
        let ghost before = out@;
        push_decimal(out, n / 10);
        push_digit(out, n % 10);
        assert(out@ =~= before + decimal_text(n as nat));
    }
}

fn push_list(out: &mut String, s: &[u8; 32])
    ensures
        final(out)@ == old(out)@ + list_text(s@),
{
    let ghost before = out@;
    out.append("[");
    let ghost open = out@;
    let mut i: usize = 0;
    assert(open + items_text(s@.take(0)) =~= open);
    while i < 32
        invariant
            i <= 32,
            out@ == open + items_text(s@.take(i as int)),
        decreases 32 - i,
    {
        let ghost head = s@.take(i + 1);
        assert(head.drop_last() =~= s@.take(i as int));
        if i > 0 {
            out.append(", ");
        }
        push_decimal(out, s[i]);
        assert(out@ =~= open + items_text(head));
        i += 1;
    }
    assert(s@.take(32) =~= s@);
    out.append("]");
    assert(out@ =~= before + list_text(s@));
}

/// Reports that a frame builds on another root than the receiver's.
pub fn mismatch(client: &[u8; 32], ours: &[u8; 32]) -> (text: String)
    ensures
        text@ == mismatch_text(client@, ours@),
{
    let mut text: String = String::new();
    text.append("base_root mismatch: client base ");
    push_list(&mut text, client);
    text.append(" != our root ");
    push_list(&mut text, ours);
    text.append("; cold start required");
    assert(text@ =~= mismatch_text(client@, ours@));
    text
}

/// The number that decimal digits stand for.
pub open spec fn digits_value(t: Seq<char>) -> int {
    t.fold_left(0int, |v: int, c: char| 10 * v + (c as int - '0' as int))
}

/// A number in decimal is digits only, without a leading zero, and reads back as the number.
pub proof fn decimal_reads_back(n: nat)
    ensures
        digits_value(decimal_text(n)) == n,
        decimal_text(n).len() > 0,
        forall|i: int| 0 <= i < decimal_text(n).len() ==> '0' <= #[trigger] decimal_text(n)[i] <= '9',
        n > 0 ==> decimal_text(n)[0] != '0',
    decreases n,
{
    let f = |v: int, c: char| 10 * v + (c as int - '0' as int);
    let t = decimal_text(n);
    lemma_digit_char(n % 10);
    if n < 10 {
        assert(t =~= seq![(('0' as int) + n) as char]);
        assert(t.drop_last() =~= Seq::<char>::empty());
        reveal_with_fuel(Seq::fold_left, 2);
    } else {
        decimal_reads_back(n / 10);
        assert(t.drop_last() =~= decimal_text(n / 10));
        reveal_with_fuel(Seq::fold_left, 2);
        assert(t.fold_left(0int, f) == f(t.drop_last().fold_left(0int, f), t.last()));
    }
}

proof fn lemma_digit_char(d: nat)
    requires
        d < 10,
    ensures
        digit_text(d) == seq![(('0' as int) + d) as char],
{
    reveal_strlit("0");
    reveal_strlit("1");
    reveal_strlit("2");
    reveal_strlit("3");
    reveal_strlit("4");
    reveal_strlit("5");
    reveal_strlit("6");
    reveal_strlit("7");
    reveal_strlit("8");
    reveal_strlit("9");
    assert(digit_text(d) =~= seq![(('0' as int) + d) as char]);
}

/// A list names each byte in its place: lists put together are separated by a comma and a
/// space, and a list of one byte is that byte.
pub proof fn lists_name_every_byte(b: u8, s: Seq<u8>, t: Seq<u8>)
    ensures
        items_text(Seq::empty()) == Seq::<char>::empty(),
        items_text(seq![b]) == decimal_text(b as nat),
        s.len() > 0 && t.len() > 0 ==> items_text(s + t) == items_text(s) + ", "@ + items_text(t),
        list_text(s) == "["@ + items_text(s) + "]"@,
    decreases t.len(),
{
    if s.len() > 0 && t.len() > 0 {
        let all = s + t;
        assert(all.last() == t.last());
        if t.len() == 1 {
            assert(all.drop_last() =~= s);
        } else {
            lists_name_every_byte(b, s, t.drop_last());
            assert(all.drop_last() =~= s + t.drop_last());
            assert(items_text(all) =~= items_text(s) + ", "@ + items_text(t));
        }
    }
}

/// The report names the client's root first and the receiver's root second.
pub proof fn mismatch_names_both_roots(client: Seq<u8>, ours: Seq<u8>)
    ensures
        mismatch_text(client, ours) == "base_root mismatch: client base ["@ + items_text(client) + "] != our root ["@
            + items_text(ours) + "]; cold start required"@,
{
    reveal_strlit("base_root mismatch: client base ");
    reveal_strlit("base_root mismatch: client base [");
    reveal_strlit(" != our root ");
    reveal_strlit("] != our root [");
    reveal_strlit("; cold start required");
    reveal_strlit("]; cold start required");
    reveal_strlit("[");
    reveal_strlit("]");
    assert("base_root mismatch: client base ["@ =~= "base_root mismatch: client base "@ + "["@);
    assert("] != our root ["@ =~= "]"@ + " != our root "@ + "["@);
    assert("]; cold start required"@ =~= "]"@ + "; cold start required"@);
    assert(mismatch_text(client, ours) =~= "base_root mismatch: client base ["@ + items_text(client)
        + "] != our root ["@ + items_text(ours) + "]; cold start required"@);
}

} // verus!
