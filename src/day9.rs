use vstd::prelude::*;
use vstd::string::StringSliceAdditionalSpecFns;
use crate::text::is_digit;

verus! {

/// `s` without its final line break, if it has one.
pub open spec fn without_line_break(s: Seq<u8>) -> Seq<u8> {
    if s.len() > 0 && s.last() == 10 {
        s.drop_last()
    } else {
        s
    }
}

/// The digits of the disk map: the whole input, but for one final line
/// break; `None` where any other byte is not a digit.
pub open spec fn disk_map(s: Seq<u8>) -> Option<Seq<u8>> {
    let m = without_line_break(s);
    if forall|k: int| 0 <= k < m.len() ==> is_digit(#[trigger] m[k]) {
        Some(m)
    } else {
        None
    }
}

/// What a block of entry `k` of the map holds: file `k / 2` (stored as
/// `k / 2 + 1`) where `k` is even, free space (0) where it is odd.
pub open spec fn slot_of(k: int) -> u64 {
    if k % 2 == 0 {
        (k / 2 + 1) as u64
    } else {
        0
    }
}

/// The disk block by block: entry `k` of the map gives `m[k]` blocks of
/// `slot_of(k)`.
pub open spec fn expand(m: Seq<u8>) -> Seq<u64>
    decreases m.len(),
{
    if m.len() == 0 {
        Seq::empty()
    } else {
        expand(m.drop_last()) + Seq::new(
            (m.last() - 48) as nat,
            |j: int| slot_of(m.len() - 1),
        )
    }
}

/// Compaction block by block: trailing free blocks are dropped, a leading
/// file block stays, and a leading free block takes the last file block.
pub open spec fn compact(b: Seq<u64>) -> Seq<u64>
    decreases b.len(),
{
    if b.len() == 0 {
        Seq::empty()
    } else if b.last() == 0 {
        compact(b.drop_last())
    } else if b[0] != 0 {
        seq![b[0]] + compact(b.drop_first())
    } else {
        seq![b.last()] + compact(b.subrange(1, b.len() - 1))
    }
}

/// The checksum of blocks `b` that start at position `start`: each file
/// block adds its position times its file number; free blocks add nothing.
pub open spec fn checksum_from(b: Seq<u64>, start: int) -> nat
    decreases b.len(),
{
    if b.len() == 0 {
        0
    } else {
        (if b[0] == 0 {
            0
        } else {
            start * (b[0] - 1)
        }) as nat + checksum_from(b.drop_first(), start + 1)
    }
}

fn map_digits(s: &[u8]) -> (r: Option<usize>)
    ensures
        match disk_map(s@) {
            Some(m) => {
                &&& r == Some(m.len() as usize)
                &&& m.len() <= s.len()
                &&& m == s@.subrange(0, m.len() as int)
                &&& forall|k: int| 0 <= k < m.len() ==> is_digit(#[trigger] s@[k])
            },
            None => r is None,
        },
{
    let n = if s.len() > 0 && s[s.len() - 1] == 10 {
        s.len() - 1
    } else {
        s.len()
    };
    let ghost m = without_line_break(s@);
    assert(m =~= s@.subrange(0, n as int));
    let mut k: usize = 0;
    while k < n
        invariant
            n <= s.len(),
            m == s@.subrange(0, n as int),
            m == without_line_break(s@),
            k <= n,
            forall|j: int| 0 <= j < k ==> is_digit(#[trigger] m[j]),
        decreases n - k,
    {
        if s[k] < 48 || s[k] > 57 {
            proof {
                assert(!is_digit(m[k as int]));
                assert(!(forall|j: int| 0 <= j < m.len() ==> is_digit(#[trigger] m[j])));
            }
            return None;
        }
        k = k + 1;
    }
    proof {
        assert forall|k: int| 0 <= k < n implies is_digit(#[trigger] s@[k]) by {
            assert(m[k] == s@[k]);
        }
    }
    Some(n)
}

fn expand_map(s: &[u8], n: usize) -> (b: Vec<u64>)
    requires
        n <= s.len(),
        forall|k: int| 0 <= k < n ==> is_digit(#[trigger] s@[k]),
    ensures
        b@ == expand(s@.subrange(0, n as int)),
{
    let mut b: Vec<u64> = Vec::new();
    let mut k: usize = 0;
    assert(s@.subrange(0, 0) =~= Seq::<u8>::empty());
    while k < n
        invariant
            n <= s.len(),
            forall|k: int| 0 <= k < n ==> is_digit(#[trigger] s@[k]),
            k <= n,
            b@ == expand(s@.subrange(0, k as int)),
        decreases n - k,
    {
        let slot: u64 = if k % 2 == 0 {
            (k / 2 + 1) as u64
        } else {
            0
        };
        let count = s[k] - 48;
        let ghost base = b@;
        let mut j: u8 = 0;
        while j < count
            invariant
                j <= count,
                b@ == base + Seq::new(j as nat, |q: int| slot_of(k as int)),
                slot == slot_of(k as int),
            decreases count - j,
        {
            b.push(slot);
            proof {
                assert(b@ =~= base + Seq::new((j + 1) as nat, |q: int| slot_of(k as int)));
            }
            j = j + 1;
        }
        proof {
            let next = s@.subrange(0, k + 1);
            assert(next.drop_last() =~= s@.subrange(0, k as int));
            assert(next.last() == s@[k as int]);
        }
        k = k + 1;
    }
    b
}

proof fn lemma_checksum_split(x: u64, rest: Seq<u64>, start: int)
    ensures
        checksum_from(seq![x] + rest, start) == (if x == 0 {
            0
        } else {
            start * (x - 1)
        }) as nat + checksum_from(rest, start + 1),
{
    assert((seq![x] + rest).drop_first() =~= rest);
}

/// The checksum of the disk once file blocks are moved one at a time from
/// the end into the leftmost free block; `None` where the input is not a
/// disk map or the checksum does not fit in a `u64`.
pub fn part1(input: &str) -> (r: Option<u64>)
    ensures
        match disk_map(input.spec_bytes()) {
            Some(m) => {
                let c = checksum_from(compact(expand(m)), 0);
                if c <= u64::MAX {
                    r == Some(c as u64)
                } else {
                    r is None
                }
            },
            None => r is None,
        },
{
    let s = input.as_bytes();
    let n = match map_digits(s) {
        Some(n) => n,
        None => {
            return None;
        },
    };
    proof {
        let m = disk_map(s@)->Some_0;
        assert(disk_map(s@) is Some);
        assert(m.len() == n);
        assert(disk_map(input.spec_bytes()) == Some(s@.subrange(0, n as int)));
    }
    let blocks = expand_map(s, n);
    let ghost whole = blocks@;
    let mut l: usize = 0;
    let mut r: usize = blocks.len();
    let mut pos: usize = 0;
    let mut result: u64 = 0;
    assert(whole.subrange(0, whole.len() as int) =~= whole);
    while l < r
        invariant
            blocks@ == whole,
            n <= s@.len(),
            whole == expand(s@.subrange(0, n as int)),
            disk_map(input.spec_bytes()) == Some(s@.subrange(0, n as int)),
            l <= r <= whole.len(),
            pos <= l,
            checksum_from(compact(whole), 0) == result + checksum_from(
                compact(whole.subrange(l as int, r as int)),
                pos as int,
            ),
        decreases r - l,
    {
        let ghost cur = whole.subrange(l as int, r as int);
        let x: u64;
        assert(cur.len() > 0 && cur.last() == whole[r - 1] && cur[0] == whole[l as int]);
        if blocks[r - 1] == 0 {
            proof {
                assert(cur.drop_last() =~= whole.subrange(l as int, r - 1));
            }
            r = r - 1;
            continue;
        } else if blocks[l] != 0 {
            x = blocks[l];
            proof {
                assert(cur.drop_first() =~= whole.subrange(l + 1, r as int));
                lemma_checksum_split(x, compact(cur.drop_first()), pos as int);
            }
            l = l + 1;
        } else {
            x = blocks[r - 1];
            proof {
                assert(cur.subrange(1, cur.len() - 1) =~= whole.subrange(l + 1, r - 1));
                lemma_checksum_split(x, compact(cur.subrange(1, cur.len() - 1)), pos as int);
            }
            l = l + 1;
            r = r - 1;
        }
        proof {
            assert(pos * (x - 1) <= 0xffffffffffffffff * 0xffffffffffffffff) by (nonlinear_arith)
                requires
                    pos <= 0xffffffffffffffff,
                    0 <= x - 1 <= 0xffffffffffffffff,
            ;
        }
        let term: u128 = pos as u128 * (x - 1) as u128;
        if term > (u64::MAX - result) as u128 {
            return None;
        }
        result = result + term as u64;
        pos = pos + 1;
    }
    proof {
        assert(whole.subrange(l as int, r as int) =~= Seq::<u64>::empty());
    }
    Some(result)
}

/// The first position at or after `from` that holds `x`.
pub open spec fn first_index(b: Seq<u64>, x: u64, from: int) -> Option<int>
    decreases b.len() - from,
{
    if from < 0 || from >= b.len() {
        None
    } else if b[from] == x {
        Some(from)
    } else {
        first_index(b, x, from + 1)
    }
}

/// How many blocks from `j` on hold `x` before another value.
pub open spec fn run_len(b: Seq<u64>, x: u64, j: int) -> nat
    decreases b.len() - j,
{
    if j < 0 || j >= b.len() || b[j] != x {
        0
    } else {
        1 + run_len(b, x, j + 1)
    }
}

/// Blocks `j..j + size` are all free.
pub open spec fn all_free(b: Seq<u64>, j: int, size: nat) -> bool {
    &&& 0 <= j
    &&& j + size <= b.len()
    &&& forall|q: int| j <= q < j + size ==> b[q] == 0
}

/// The first position in `from..limit` where `size` free blocks start.
pub open spec fn first_fit(b: Seq<u64>, size: nat, from: int, limit: int) -> Option<int>
    decreases limit - from,
{
    if from >= limit {
        None
    } else if all_free(b, from, size) {
        Some(from)
    } else {
        first_fit(b, size, from + 1, limit)
    }
}

/// `b` with blocks `start..start + size` set to `x`.
pub open spec fn place(b: Seq<u64>, start: int, size: nat, x: u64) -> Seq<u64> {
    Seq::new(b.len(), |q: int| if start <= q < start + size { x } else { b[q] })
}

/// The disk after file slot `x` is moved whole to the first run of free
/// blocks, left of it, that can hold it; unchanged where there is none.
pub open spec fn move_file(b: Seq<u64>, x: u64) -> Seq<u64> {
    match first_index(b, x, 0) {
        None => b,
        Some(st) => {
            let sz = run_len(b, x, st);
            match first_fit(b, sz, 0, st) {
                None => b,
                Some(j) => place(place(b, st, sz, 0), j, sz, x),
            }
        },
    }
}

/// The disk after file slots `k`, `k - 1`, down to 1 are moved in turn.
pub open spec fn move_files(b: Seq<u64>, k: nat) -> Seq<u64>
    decreases k,
{
    if k == 0 {
        b
    } else {
        move_files(move_file(b, k as u64), (k - 1) as nat)
    }
}

fn move_file_exec(blocks: &mut Vec<u64>, x: u64)
    requires
        x != 0,
    ensures
        final(blocks)@ == move_file(old(blocks)@, x),
{
    let ghost b = blocks@;
    let n = blocks.len();
    let mut st: usize = 0;
    while st < n && blocks[st] != x
        invariant
            blocks@ == b,
            n == b.len(),
            st <= n,
            first_index(b, x, 0) == first_index(b, x, st as int),
        decreases n - st,
    {
        st = st + 1;
    }
    if st == n {
        return;
    }
    let mut e: usize = st;
    while e < n && blocks[e] == x
        invariant
            blocks@ == b,
            n == b.len(),
            st <= e <= n,
            run_len(b, x, st as int) == (e - st) + run_len(b, x, e as int),
        decreases n - e,
    {
        e = e + 1;
    }
    let sz = e - st;
    let ghost gsz = sz as nat;
    assert(run_len(b, x, st as int) == gsz);
    let mut j: usize = 0;
    let mut found = false;
    while j < st && !found
        invariant
            blocks@ == b,
            n == b.len(),
            st < n,
            j <= st,
            sz == gsz,
            st + sz <= n,
            found ==> j < st && first_fit(b, gsz, 0, st as int) == Some(j as int),
            !found ==> first_fit(b, gsz, 0, st as int) == first_fit(b, gsz, j as int, st as int),
        decreases st - j + if found {
            0int
        } else {
            1int
        },
    {
        let mut q: usize = j;
        let mut free = j + sz <= n;
        while free && q < j + sz
            invariant
                blocks@ == b,
                n == b.len(),
                j <= q,
                j < st,
                st + sz <= n,
                free ==> j + sz <= n,
                free ==> forall|t: int| j <= t < q ==> b[t] == 0,
                !free ==> !all_free(b, j as int, gsz),
                sz == gsz,
            decreases j + sz - q + if free {
                1int
            } else {
                0int
            },
        {
            if blocks[q] != 0 {
                free = false;
            } else {
                q = q + 1;
            }
        }
        if free {
            found = true;
        } else {
            j = j + 1;
        }
    }
    if !found {
        return;
    }
    let ghost cleared = place(b, st as int, gsz, 0);
    let mut t: usize = st;
    while t < e
        invariant
            st <= t <= e,
            e == st + sz,
            e <= n,
            blocks@.len() == n,
            n == b.len(),
            forall|q: int| 0 <= q < n ==> #[trigger] blocks@[q] == if st <= q < t {
                0
            } else {
                b[q]
            },
        decreases e - t,
    {
        blocks.set(t, 0);
        t = t + 1;
    }
    assert(blocks@ =~= cleared);
    let mut t: usize = j;
    while t < j + sz
        invariant
            j <= t <= j + sz,
            j + sz <= n,
            blocks@.len() == n,
            cleared.len() == n,
            forall|q: int| 0 <= q < n ==> #[trigger] blocks@[q] == if j <= q < t {
                x
            } else {
                cleared[q]
            },
        decreases j + sz - t,
    {
        blocks.set(t, x);
        t = t + 1;
    }
    assert(blocks@ =~= place(cleared, j as int, gsz, x));
}

/// The checksum of the disk once whole files are moved, from the highest
/// file number down, each to the leftmost run of free blocks left of it
/// that can hold it; `None` where the input is not a disk map or the
/// checksum does not fit in a `u64`.
pub fn part2(input: &str) -> (r: Option<u64>)
    ensures
        match disk_map(input.spec_bytes()) {
            Some(m) => {
                let c = checksum_from(move_files(expand(m), ((m.len() + 1) / 2) as nat), 0);
                if c <= u64::MAX {
                    r == Some(c as u64)
                } else {
                    r is None
                }
            },
            None => r is None,
        },
{
    let s = input.as_bytes();
    let n = match map_digits(s) {
        Some(n) => n,
        None => {
            return None;
        },
    };
    proof {
        let m = disk_map(s@)->Some_0;
        assert(disk_map(s@) is Some);
        assert(m.len() == n);
    }
    let mut blocks = expand_map(s, n);
    let ghost start = blocks@;
    let files: u64 = (n / 2 + n % 2) as u64;
    let mut k: u64 = files;
    while k > 0
        invariant
            k <= files,
            move_files(start, files as nat) == move_files(blocks@, k as nat),
        decreases k,
    {
        move_file_exec(&mut blocks, k);
        k = k - 1;
    }
    checksum(&blocks)
}

/// The checksum of `b` from position 0, as `checksum_from` says; `None`
/// where it does not fit in a `u64`.
fn checksum(b: &Vec<u64>) -> (r: Option<u64>)
    ensures
        checksum_from(b@, 0) <= u64::MAX ==> r == Some(checksum_from(b@, 0) as u64),
        checksum_from(b@, 0) > u64::MAX ==> r is None,
{
    let mut result: u64 = 0;
    let mut p: usize = 0;
    assert(b@.subrange(0, b@.len() as int) =~= b@);
    while p < b.len()
        invariant
            p <= b.len(),
            checksum_from(b@, 0) == result + checksum_from(b@.subrange(p as int, b@.len() as int), p as int),
        decreases b.len() - p,
    {
        let ghost cur = b@.subrange(p as int, b@.len() as int);
        proof {
            assert(cur.drop_first() =~= b@.subrange(p + 1, b@.len() as int));
        }
        let x = b[p];
        if x != 0 {
            proof {
                assert(p * (x - 1) <= 0xffffffffffffffff * 0xffffffffffffffff) by (nonlinear_arith)
                    requires
                        p <= 0xffffffffffffffff,
                        0 <= x - 1 <= 0xffffffffffffffff,
                ;
            }
            let term: u128 = p as u128 * (x - 1) as u128;
            if term > (u64::MAX - result) as u128 {
                return None;
            }
            result = result + term as u64;
        }
        p = p + 1;
    }
    proof {
        assert(b@.subrange(p as int, b@.len() as int) =~= Seq::<u64>::empty());
    }
    Some(result)
}

} // verus!
