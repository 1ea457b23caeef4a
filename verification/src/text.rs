//! Text helpers on byte strings: splitting a line into fields, joining
//! fields back, trimming leading whitespace, and prefix tests.

use vstd::prelude::*;

use crate::bytes::deep;

verus! {

/// ASCII whitespace: space, tab, line feed, vertical tab, form feed,
/// carriage return.
pub open spec fn is_space(b: u8) -> bool {
    b == 0x20 || (0x09 <= b && b <= 0x0d)
}

/// `s` without its leading whitespace.
pub open spec fn trim_start_spec(s: Seq<u8>) -> Seq<u8>
    decreases s.len(),
{
    if s.len() > 0 && is_space(s[0]) {
        trim_start_spec(s.drop_first())
    } else {
        s
    }
}

/// `s` begins with `prefix`.
pub open spec fn starts_with(s: Seq<u8>, prefix: Seq<u8>) -> bool {
    s.len() >= prefix.len() && s.subrange(0, prefix.len() as int) == prefix
}

/// The fields of `s` split on `sep`, with `cur` the partial field read so
/// far: one field per separator-free stretch, one more field than there
/// are separators.
pub open spec fn split_acc(s: Seq<u8>, sep: u8, cur: Seq<u8>) -> Seq<Seq<u8>>
    decreases s.len(),
{
    if s.len() == 0 {
        seq![cur]
    } else if s[0] == sep {
        seq![cur] + split_acc(s.drop_first(), sep, Seq::empty())
    } else {
        split_acc(s.drop_first(), sep, cur.push(s[0]))
    }
}

/// The fields of `s` split on `sep`. Splitting the empty string gives one
/// empty field, as Rust's `split` does.
pub open spec fn split_spec(s: Seq<u8>, sep: u8) -> Seq<Seq<u8>> {
    split_acc(s, sep, Seq::empty())
}

/// The fields joined with `sep` between consecutive fields.
pub open spec fn join_spec(fields: Seq<Seq<u8>>, sep: u8) -> Seq<u8>
    decreases fields.len(),
{
    if fields.len() == 0 {
        Seq::empty()
    } else if fields.len() == 1 {
        fields[0]
    } else {
        join_spec(fields.drop_last(), sep) + seq![sep] + fields.last()
    }
}

/// Split `s` into its fields on the separator byte `sep`.
pub fn split(s: &Vec<u8>, sep: u8) -> (r: Vec<Vec<u8>>)
    ensures
        deep(r@) == split_spec(s@, sep),
        r@.len() >= 1,
{
    let n: usize = s.len();
    let mut fields: Vec<Vec<u8>> = Vec::new();
    let mut cur: Vec<u8> = Vec::new();
    let mut i: usize = 0;
    proof {
        assert(s@.skip(0) =~= s@);
        assert(deep(fields@) =~= Seq::<Seq<u8>>::empty());
        assert(deep(fields@) + split_acc(s@, sep, cur@) =~= split_acc(s@, sep, cur@));
    }
    while i < n
        invariant
            0 <= i <= n,
            n == s@.len(),
            split_spec(s@, sep) == deep(fields@) + split_acc(s@.skip(i as int), sep, cur@),
        decreases n - i,
    {
        let ghost prev_fields = deep(fields@);
        let ghost prev_cur = cur@;
        let c = s[i];
        if c == sep {
            fields.push(cur);
            cur = Vec::new();
            proof {
                assert(deep(fields@) =~= prev_fields + seq![prev_cur]);
            }
        } else {
            cur.push(c);
        }
        i = i + 1;
        proof {
            assert(s@.skip(i - 1).drop_first() =~= s@.skip(i as int));
            assert(s@.skip(i - 1)[0] == s@[i - 1]);
        }
    }
    proof {
        assert(s@.skip(n as int).len() == 0);
    }
    let ghost prev_fields = deep(fields@);
    let ghost prev_cur = cur@;
    fields.push(cur);
    proof {
        assert(deep(fields@) =~= prev_fields + seq![prev_cur]);
        assert(split_acc(s@.skip(n as int), sep, prev_cur) == seq![prev_cur]);
        assert(deep(fields@) =~= split_spec(s@, sep));
    }
    fields
}

/// Join `fields` with `sep` between consecutive fields.
pub fn join(fields: &Vec<Vec<u8>>, sep: u8) -> (r: Vec<u8>)
    ensures
        r@ == join_spec(deep(fields@), sep),
{
    let n: usize = fields.len();
    let mut acc: Vec<u8> = Vec::new();
    let mut i: usize = 0;
    proof {
        assert(deep(fields@).take(0) =~= Seq::<Seq<u8>>::empty());
    }
    while i < n
        invariant
            0 <= i <= n,
            n == fields@.len(),
            acc@ == join_spec(deep(fields@).take(i as int), sep),
        decreases n - i,
    {
        let ghost prev_acc = acc@;
        if i > 0 {
            acc.push(sep);
        }
        let mut j: usize = 0;
        let m: usize = fields[i].len();
        while j < m
            invariant
                0 <= j <= m,
                0 <= i < fields@.len(),
                m == fields@[i as int]@.len(),
                i > 0 ==> acc@ == prev_acc + seq![sep] + fields@[i as int]@.take(j as int),
                i == 0 ==> acc@ == prev_acc + fields@[i as int]@.take(j as int),
            decreases m - j,
        {
            acc.push(fields[i][j]);
            proof {
                assert(fields@[i as int]@.take(j + 1) =~= fields@[i as int]@.take(j as int).push(
                    fields@[i as int]@[j as int],
                ));
            }
            j = j + 1;
        }
        proof {
            let d = deep(fields@);
            assert(fields@[i as int]@.take(m as int) =~= d[i as int]);
            assert(d.take(i + 1).drop_last() =~= d.take(i as int));
            assert(d.take(i + 1).last() == d[i as int]);
            if i == 0 {
                assert(acc@ =~= d[0]);
                assert(join_spec(d.take(1), sep) == d.take(1)[0]);
                assert(d.take(1)[0] == d[0]);
            } else {
                assert(acc@ =~= join_spec(d.take(i as int), sep) + seq![sep] + d[i as int]);
            }
        }
        i = i + 1;
    }
    proof {
        assert(deep(fields@).take(n as int) =~= deep(fields@));
    }
    acc
}

/// The index of the first non-whitespace byte of `s` (its length if `s` is
/// all whitespace): what remains is `s` trimmed of leading whitespace.
pub fn trim_start_index(s: &Vec<u8>) -> (i: usize)
    ensures
        0 <= i <= s@.len(),
        s@.skip(i as int) == trim_start_spec(s@),
{
    let n: usize = s.len();
    let mut i: usize = 0;
    proof {
        assert(s@.skip(0) =~= s@);
    }
    while i < n
        invariant
            0 <= i <= n,
            n == s@.len(),
            trim_start_spec(s@) == trim_start_spec(s@.skip(i as int)),
        decreases n - i,
    {
        let c = s[i];
        if !(c == 0x20 || (0x09 <= c && c <= 0x0d)) {
            proof {
                assert(s@.skip(i as int)[0] == s@[i as int]);
            }
            return i;
        }
        i = i + 1;
        proof {
            assert(s@.skip(i - 1).drop_first() =~= s@.skip(i as int));
            assert(s@.skip(i - 1)[0] == s@[i - 1]);
        }
    }
    proof {
        assert(s@.skip(n as int) =~= Seq::<u8>::empty());
    }
    n
}

/// Whether `s`, starting at position `from`, begins with `prefix`.
pub fn has_prefix_from(s: &Vec<u8>, from: usize, prefix: &Vec<u8>) -> (r: bool)
    requires
        from <= s@.len(),
    ensures
        r == starts_with(s@.skip(from as int), prefix@),
{
    let n: usize = s.len();
    let m: usize = prefix.len();
    if n - from < m {
        return false;
    }
    let mut j: usize = 0;
    while j < m
        invariant
            0 <= j <= m,
            m == prefix@.len(),
            from + m <= n,
            n == s@.len(),
            forall|k: int| 0 <= k < j ==> s@[from + k] == prefix@[k],
        decreases m - j,
    {
        if s[from + j] != prefix[j] {
            proof {
                assert(s@.skip(from as int).subrange(0, m as int)[j as int] == s@[from + j]);
            }
            return false;
        }
        j = j + 1;
    }
    proof {
        assert(s@.skip(from as int).subrange(0, m as int) =~= prefix@);
    }
    true
}

} // verus!
