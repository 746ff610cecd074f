use vstd::prelude::*;

verus! {

/// Characters stripped from both ends of a connection list.
pub open spec fn is_wrapper(c: char) -> bool {
    c == '[' || c == ']' || c == '"'
}

/// Unicode white space, as `char::is_whitespace` defines it.
pub open spec fn is_white(c: char) -> bool {
    let u = c as u32;
    (0x9 <= u <= 0xd) || u == 0x20 || u == 0x85 || u == 0xa0 || u == 0x1680 || (0x2000 <= u
        <= 0x200a) || u == 0x2028 || u == 0x2029 || u == 0x202f || u == 0x205f || u == 0x3000
}

/// The class stripped by a trim: white space, or the list wrappers.
pub open spec fn in_class(c: char, white: bool) -> bool {
    if white {
        is_white(c)
    } else {
        is_wrapper(c)
    }
}

fn class_test(c: char, white: bool) -> (r: bool)
    ensures
        r == in_class(c, white),
{
    if white {
        let u = c as u32;
        (0x9 <= u && u <= 0xd) || u == 0x20 || u == 0x85 || u == 0xa0 || u == 0x1680 || (0x2000 <= u
            && u <= 0x200a) || u == 0x2028 || u == 0x2029 || u == 0x202f || u == 0x205f || u == 0x3000
    } else {
        c == '[' || c == ']' || c == '"'
    }
}

/// `a` is the length of the longest prefix of `s` made of class characters.
pub open spec fn is_lead(s: Seq<char>, white: bool, a: int) -> bool {
    &&& 0 <= a <= s.len()
    &&& forall|t: int| 0 <= t < a ==> in_class(#[trigger] s[t], white)
    &&& (a == s.len() || !in_class(s[a], white))
}

/// `b` is the length of the longest suffix of `s` made of class characters.
pub open spec fn is_trail(s: Seq<char>, white: bool, b: int) -> bool {
    &&& 0 <= b <= s.len()
    &&& forall|t: int| s.len() - b <= t < s.len() ==> in_class(#[trigger] s[t], white)
    &&& (b == s.len() || !in_class(s[s.len() - b - 1], white))
}

/// `s` without the class characters at either end.
pub open spec fn trimmed(s: Seq<char>, white: bool) -> Seq<char> {
    let a = choose|a: int| is_lead(s, white, a);
    let b = choose|b: int| is_trail(s, white, b);
    if a == s.len() {
        Seq::empty()
    } else {
        s.subrange(a, s.len() - b)
    }
}

/// Removes the class characters at both ends of `s`.
pub fn trim_class(s: &Vec<char>, white: bool) -> (r: Vec<char>)
    ensures
        r@ == trimmed(s@, white),
        r@.len() > 0 ==> !in_class(r@[0], white) && !in_class(r@.last(), white),
{
    let n = s.len();
    let mut a: usize = 0;
    while a < n && class_test(s[a], white)
        invariant
            a <= n,
            n == s@.len(),
            forall|t: int| 0 <= t < a ==> in_class(#[trigger] s@[t], white),
        decreases n - a,
    {
        a = a + 1;
    }
    let mut b: usize = 0;
    while b < n && class_test(s[n - 1 - b], white)
        invariant
            b <= n,
            n == s@.len(),
            forall|t: int| n - b <= t < n ==> in_class(#[trigger] s@[t], white),
        decreases n - b,
    {
        b = b + 1;
    }
    proof {
        assert(is_lead(s@, white, a as int));
        assert(is_trail(s@, white, b as int));
        let a2 = choose|a2: int| is_lead(s@, white, a2);
        let b2 = choose|b2: int| is_trail(s@, white, b2);
        if a2 < a {
            assert(in_class(s@[a2], white));
        } else if a < a2 {
            assert(in_class(s@[a as int], white));
        }
        if b2 < b {
            assert(in_class(s@[n - b2 - 1], white));
        } else if b < b2 {
            assert(in_class(s@[n - b - 1], white));
        }
    }
    let mut r: Vec<char> = Vec::new();
    if a < n {
        // a character outside the class stands at `a`, so the suffix ends after it
        assert(!in_class(s@[a as int], white));
        assert(n - b > a) by {
            if n - b <= a {
                assert(in_class(s@[a as int], white));
            }
        }
        let mut i: usize = a;
        while i < n - b
            invariant
                a <= i <= n - b,
                n == s@.len(),
                r@ == s@.subrange(a as int, i as int),
            decreases n - b - i,
        {
            r.push(s[i]);
            assert(r@ =~= s@.subrange(a as int, i + 1));
            i = i + 1;
        }
        assert(r@[0] == s@[a as int]);
        assert(r@.last() == s@[n - b - 1]);
    } else {
        assert(r@ =~= Seq::<char>::empty());
    }
    r
}

/// `s` with every double quote removed.
pub open spec fn unquoted(s: Seq<char>) -> Seq<char>
    decreases s.len(),
{
    if s.len() == 0 {
        s
    } else if s.last() == '"' {
        unquoted(s.drop_last())
    } else {
        unquoted(s.drop_last()).push(s.last())
    }
}

/// The comma-separated fields of `s`, in order; there is always at least one.
pub open spec fn comma_fields(s: Seq<char>) -> Seq<Seq<char>>
    decreases s.len(),
{
    if s.len() == 0 {
        seq![Seq::empty()]
    } else {
        let prev = comma_fields(s.drop_last());
        if s.last() == ',' {
            prev.push(Seq::empty())
        } else {
            prev.update(prev.len() - 1, prev.last().push(s.last()))
        }
    }
}

proof fn lemma_fields_nonempty(s: Seq<char>)
    ensures
        comma_fields(s).len() >= 1,
    decreases s.len(),
{
    if s.len() > 0 {
        lemma_fields_nonempty(s.drop_last());
    }
}

/// The identifiers of a connection list such as `["b", "c"]`: the list is
/// trimmed of white space and then of brackets and quotes at its ends, every
/// remaining quote is dropped, the rest is split at commas, and each field
/// is trimmed of white space. Fields may come out empty; a field that is
/// not empty neither starts nor ends with white space, so a field of white
/// space alone comes out empty and is skipped by `Graph::add_row`.
pub open spec fn connection_ids(raw: Seq<char>) -> Seq<Seq<char>> {
    let fields = comma_fields(unquoted(trimmed(trimmed(raw, true), false)));
    Seq::new(fields.len(), |k: int| trimmed(fields[k], true))
}

/// Splits a connection list into its identifiers.
pub fn connection_tokens(raw: &Vec<char>) -> (r: Vec<Vec<char>>)
    ensures
        r@.len() == connection_ids(raw@).len(),
        forall|k: int| 0 <= k < r@.len() ==> #[trigger] r@[k]@ == connection_ids(raw@)[k],
        forall|k: int|
            0 <= k < r@.len() && #[trigger] r@[k]@.len() > 0 ==> !is_white(r@[k]@[0]) && !is_white(r@[k]@.last()),
{
    let outer = trim_class(raw, true);
    let inner = trim_class(&outer, false);
    let ghost body = unquoted(inner@);
    let mut fields: Vec<Vec<char>> = Vec::new();
    let mut cur: Vec<char> = Vec::new();
    let mut i: usize = 0;
    let ghost mut seen: Seq<char> = Seq::empty();
    while i < inner.len()
        invariant
            i <= inner@.len(),
            seen == unquoted(inner@.subrange(0, i as int)),
            comma_fields(seen).len() == fields@.len() + 1,
            forall|k: int| 0 <= k < fields@.len() ==> #[trigger] fields@[k]@ == comma_fields(seen)[k],
            cur@ == comma_fields(seen).last(),
        decreases inner@.len() - i,
    {
        let c = inner[i];
        proof {
            assert(inner@.subrange(0, i + 1).drop_last() =~= inner@.subrange(0, i as int));
            assert(inner@.subrange(0, i + 1).last() == c);
        }
        if c == '"' {
        } else if c == ',' {
            proof {
                lemma_fields_nonempty(seen);
                seen = seen.push(c);
                assert(seen.drop_last() =~= unquoted(inner@.subrange(0, i as int)));
            }
            fields.push(cur);
            cur = Vec::new();
        } else {
            proof {
                lemma_fields_nonempty(seen);
                seen = seen.push(c);
                assert(seen.drop_last() =~= unquoted(inner@.subrange(0, i as int)));
            }
            cur.push(c);
            proof {
                let prev = comma_fields(seen.drop_last());
                assert forall|k: int| 0 <= k < fields@.len() implies #[trigger] fields@[k]@ == comma_fields(seen)[k] by {
                    assert(comma_fields(seen)[k] == prev[k]);
                }
            }
        }
        i = i + 1;
    }
    assert(inner@.subrange(0, inner@.len() as int) =~= inner@);
    fields.push(cur);
    let ghost all = comma_fields(seen);
    assert(fields@.len() == all.len());
    let mut r: Vec<Vec<char>> = Vec::new();
    let mut k: usize = 0;
    while k < fields.len()
        invariant
            k <= fields@.len(),
            fields@.len() == all.len(),
            all == comma_fields(unquoted(trimmed(trimmed(raw@, true), false))),
            forall|t: int| 0 <= t < fields@.len() ==> #[trigger] fields@[t]@ == all[t],
            r@.len() == k,
            forall|t: int| 0 <= t < k ==> #[trigger] r@[t]@ == trimmed(all[t], true),
            forall|t: int|
                0 <= t < k && #[trigger] r@[t]@.len() > 0 ==> !is_white(r@[t]@[0]) && !is_white(r@[t]@.last()),
        decreases fields@.len() - k,
    {
        r.push(trim_class(&fields[k], true));
        k = k + 1;
    }
    r
}

} // verus!
