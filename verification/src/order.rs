use vstd::prelude::*;

verus! {

/// The rank of a character in a text comparison; with `sep_first`, the path
/// separator `/` ranks before every other character, which makes the
/// comparison of two paths go component by component.
pub open spec fn rank(c: char, sep_first: bool) -> int {
    if sep_first && c == '/' {
        -1
    } else {
        c as int
    }
}

/// Ranks are at least -1 and tell characters apart.
pub proof fn lemma_rank(c: char, sep_first: bool)
    ensures
        c as int >= 0,
        rank(c, sep_first) >= -1,
        rank(c, sep_first) == -1 <==> sep_first && c == '/',
        forall|d: char| rank(d, sep_first) == rank(c, sep_first) ==> d == c,
{
    assert forall|d: char| rank(d, sep_first) == rank(c, sep_first) implies d == c by {
        lemma_char_code(d);
    }
}

/// A character's code is not negative.
proof fn lemma_char_code(c: char)
    ensures
        c as int >= 0,
{
}

/// Compares two texts character by character: -1, 0 or 1. A text that is a
/// proper prefix of the other comes first.
pub open spec fn text_order(a: Seq<char>, b: Seq<char>, sep_first: bool) -> int
    decreases a.len(),
{
    if a.len() == 0 {
        if b.len() == 0 {
            0
        } else {
            -1
        }
    } else if b.len() == 0 {
        1
    } else if rank(a[0], sep_first) < rank(b[0], sep_first) {
        -1
    } else if rank(a[0], sep_first) > rank(b[0], sep_first) {
        1
    } else {
        text_order(a.drop_first(), b.drop_first(), sep_first)
    }
}

/// The comparison is antisymmetric, and says 0 only of equal texts.
pub proof fn lemma_text_order_antisym(a: Seq<char>, b: Seq<char>, sep_first: bool)
    ensures
        text_order(a, b, sep_first) == -text_order(b, a, sep_first),
        -1 <= text_order(a, b, sep_first) <= 1,
        text_order(a, b, sep_first) == 0 <==> a == b,
    decreases a.len(),
{
    if a.len() > 0 && b.len() > 0 {
        lemma_rank(a[0], sep_first);
        lemma_rank(b[0], sep_first);
        lemma_text_order_antisym(a.drop_first(), b.drop_first(), sep_first);
        if a.drop_first() == b.drop_first() && a[0] == b[0] {
            assert(a == seq![a[0]] + a.drop_first());
            assert(b == seq![b[0]] + b.drop_first());
        }
        if a == b {
            assert(a.drop_first() == b.drop_first());
        }
    } else if a.len() == 0 && b.len() == 0 {
        assert(a == b);
    }
}

/// The comparison is transitive.
pub proof fn lemma_text_order_trans(a: Seq<char>, b: Seq<char>, c: Seq<char>, sep_first: bool)
    requires
        text_order(a, b, sep_first) <= 0,
        text_order(b, c, sep_first) <= 0,
    ensures
        text_order(a, c, sep_first) <= 0,
        text_order(a, b, sep_first) < 0 || text_order(b, c, sep_first) < 0 ==> text_order(a, c, sep_first)
            < 0,
    decreases a.len(),
{
    lemma_text_order_antisym(a, b, sep_first);
    lemma_text_order_antisym(b, c, sep_first);
    lemma_text_order_antisym(a, c, sep_first);
    if a.len() > 0 && b.len() > 0 && c.len() > 0 {
        if rank(a[0], sep_first) == rank(b[0], sep_first) && rank(b[0], sep_first) == rank(
            c[0],
            sep_first,
        ) {
            lemma_text_order_trans(a.drop_first(), b.drop_first(), c.drop_first(), sep_first);
        }
    }
}

/// Compares the characters of two texts as `text_order` does.
pub fn compare_chars(a: &Vec<char>, b: &Vec<char>, sep_first: bool) -> (r: i8)
    ensures
        r as int == text_order(a@, b@, sep_first),
{
    let mut i: usize = 0;
    assert(a@.subrange(0, a@.len() as int) == a@);
    assert(b@.subrange(0, b@.len() as int) == b@);
    while i < a.len() && i < b.len()
        invariant
            i <= a@.len(),
            i <= b@.len(),
            text_order(a@, b@, sep_first) == text_order(
                a@.subrange(i as int, a@.len() as int),
                b@.subrange(i as int, b@.len() as int),
                sep_first,
            ),
        decreases a@.len() - i,
    {
        let ghost sa = a@.subrange(i as int, a@.len() as int);
        let ghost sb = b@.subrange(i as int, b@.len() as int);
        let ca = a[i];
        let cb = b[i];
        assert(sa[0] == ca && sb[0] == cb);
        proof {
            lemma_rank(ca, sep_first);
            lemma_rank(cb, sep_first);
        }
        if ca != cb {
            if sep_first && ca == '/' {
                return -1;
            }
            if sep_first && cb == '/' {
                return 1;
            }
            if ca < cb {
                return -1;
            } else {
                return 1;
            }
        }
        assert(sa.drop_first() == a@.subrange(i + 1, a@.len() as int));
        assert(sb.drop_first() == b@.subrange(i + 1, b@.len() as int));
        i = i + 1;
    }
    if i < a.len() {
        1
    } else if i < b.len() {
        -1
    } else {
        0
    }
}

} // verus!
