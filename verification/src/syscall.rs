//! Process management syscalls.
//!
//! Each system call here decides what the kernel does and what the caller is
//! answered; the work on the task, the page table and user memory is done by
//! the kernel around these functions, which hands them what that work found.

use vstd::prelude::*;
use vstd::arithmetic::power::pow;

verus! {

/// Size of a page in bytes.
pub const PAGE_SIZE: usize = 4096;

/// Seconds and microseconds, as handed to user programs.
#[derive(Debug)]
pub struct TimeVal {
    pub sec: usize,
    pub usec: usize,
}

/// The `n` lowest bytes of `x`, least significant first.
pub open spec fn le_bytes(x: nat, n: nat) -> Seq<u8>
    decreases n,
{
    if n == 0 {
        Seq::empty()
    } else {
        seq![(x % 256) as u8] + le_bytes(x / 256, (n - 1) as nat)
    }
}

proof fn lemma_le_bytes_len(x: nat, n: nat)
    ensures
        le_bytes(x, n).len() == n,
    decreases n,
{
    if n > 0 {
        lemma_le_bytes_len(x / 256, (n - 1) as nat);
    }
}

/// The number whose bytes, least significant first, are `bytes`.
pub open spec fn le_value(bytes: Seq<u8>) -> nat
    decreases bytes.len(),
{
    if bytes.len() == 0 {
        0
    } else {
        bytes[0] as nat + 256 * le_value(bytes.drop_first())
    }
}

/// Reading back the `n` lowest bytes of `x` gives `x` modulo `256^n`.
pub proof fn law_le_bytes_decode(x: nat, n: nat)
    ensures
        le_bytes(x, n).len() == n,
        le_value(le_bytes(x, n)) == (x as int) % pow(256, n),
    decreases n,
{
    lemma_le_bytes_len(x, n);
    reveal(pow);
    if n == 0 {
        assert(pow(256, 0) == 1);
    } else {
        let b = le_bytes(x, n);
        let rest = le_bytes(x / 256, (n - 1) as nat);
        law_le_bytes_decode(x / 256, (n - 1) as nat);
        assert(b.drop_first() =~= rest);
        assert(b[0] == (x % 256) as u8);
        let p = pow(256, (n - 1) as nat);
        vstd::arithmetic::power::lemma_pow_positive(256, (n - 1) as nat);
        assert(pow(256, n) == 256 * p);
        vstd::arithmetic::div_mod::lemma_mod_breakdown(x as int, 256, p);
    }
}

/// Every `usize` is below `256` to the number of bytes in a `usize`.
pub proof fn lemma_usize_below_byte_power(x: usize)
    ensures
        x < pow(256, usize_bytes()),
{
    broadcast use vstd::layout::layout_of_primitives;

    vstd::layout::unsigned_int_max_values();
    assert(vstd::layout::size_of::<usize>() == usize_bytes());
}

/// The bytes of a `TimeVal` read back, field by field, as its seconds and
/// microseconds.
pub proof fn law_timeval_bytes_decode(sec: usize, usec: usize)
    ensures
        timeval_bytes(sec, usec).len() == 2 * usize_bytes(),
        le_value(timeval_bytes(sec, usec).take(usize_bytes() as int)) == sec,
        le_value(timeval_bytes(sec, usec).skip(usize_bytes() as int)) == usec,
{
    let w = usize_bytes();
    law_le_bytes_decode(sec as nat, w);
    law_le_bytes_decode(usec as nat, w);
    lemma_usize_below_byte_power(sec);
    lemma_usize_below_byte_power(usec);
    vstd::arithmetic::div_mod::lemma_small_mod(sec as nat, pow(256, w) as nat);
    vstd::arithmetic::div_mod::lemma_small_mod(usec as nat, pow(256, w) as nat);
    let t = timeval_bytes(sec, usec);
    assert(t.take(w as int) =~= le_bytes(sec as nat, w));
    assert(t.skip(w as int) =~= le_bytes(usec as nat, w));
}

/// Bytes in a `usize`.
pub open spec fn usize_bytes() -> nat {
    (usize::BITS / 8) as nat
}

/// The bytes of a `TimeVal` in user memory: `sec`, then `usec`, each in the
/// target's little-endian order.
pub open spec fn timeval_bytes(sec: usize, usec: usize) -> Seq<u8> {
    le_bytes(sec as nat, usize_bytes()) + le_bytes(usec as nat, usize_bytes())
}

/// The contents of a list of buffers, one after the other.
pub open spec fn buffers_content(buffers: Seq<Vec<u8>>) -> Seq<u8> {
    buffers.map_values(|b: Vec<u8>| b@).flatten()
}

/// The bytes of `x`, least significant first.
fn usize_to_le_bytes(x: usize) -> (bytes: Vec<u8>)
    ensures
        bytes@ == le_bytes(x as nat, usize_bytes()),
{
    let n: u32 = usize::BITS / 8;
    let mut bytes: Vec<u8> = Vec::new();
    let mut v: usize = x;
    let mut i: u32 = 0;
    while i < n
        invariant
            n == usize_bytes(),
            i <= n,
            bytes@ + le_bytes(v as nat, (n - i) as nat) == le_bytes(x as nat, n as nat),
        decreases n - i,
    {
        let ghost before = bytes@;
        bytes.push((v % 256) as u8);
        proof {
            assert(le_bytes(v as nat, (n - i) as nat) == seq![(v % 256) as u8] + le_bytes(
                (v / 256) as nat,
                (n - i - 1) as nat,
            ));
            assert(bytes@ + le_bytes((v / 256) as nat, (n - i - 1) as nat) =~= before + le_bytes(
                v as nat,
                (n - i) as nat,
            ));
        }
        v = v / 256;
        i = i + 1;
    }
    assert(bytes@ =~= bytes@ + le_bytes(v as nat, 0));
    bytes
}

impl TimeVal {
    /// Splits a time in microseconds into seconds and microseconds.
    pub fn from_us(us: usize) -> (tv: TimeVal)
        ensures
            tv.sec == us / 1_000_000,
            tv.usec == us % 1_000_000,
            tv.sec * 1_000_000 + tv.usec == us,
    {
        TimeVal { sec: us / 1_000_000, usec: us % 1_000_000 }
    }

    /// The bytes of this `TimeVal` in user memory.
    pub fn to_bytes(&self) -> (bytes: Vec<u8>)
        ensures
            bytes@ == timeval_bytes(self.sec, self.usec),
            le_value(bytes@.take(usize_bytes() as int)) == self.sec,
            le_value(bytes@.skip(usize_bytes() as int)) == self.usec,
    {
        proof {
            law_timeval_bytes_decode(self.sec, self.usec);
        }
        let mut bytes = usize_to_le_bytes(self.sec);
        let mut tail = usize_to_le_bytes(self.usec);
        bytes.append(&mut tail);
        bytes
    }
}

/// Writes `src` across `buffers`, filling each in turn.
fn scatter(src: &Vec<u8>, buffers: &mut Vec<Vec<u8>>)
    requires
        buffers_content(old(buffers)@).len() == src@.len(),
    ensures
        final(buffers)@.len() == old(buffers)@.len(),
        forall|k: int|
            0 <= k < old(buffers)@.len() ==> (#[trigger] final(buffers)@[k])@.len() == old(
                buffers,
            )@[k]@.len(),
        buffers_content(final(buffers)@) == src@,
{
    let ghost lens = old(buffers)@.map_values(|b: Vec<u8>| b@);
    proof {
        lens.lemma_flatten_and_flatten_alt_are_equivalent();
    }
    let n = buffers.len();
    let total = src.len();
    let mut out: Vec<Vec<u8>> = Vec::new();
    let mut pos: usize = 0;
    let mut k: usize = 0;
    while k < n
        invariant
            n == old(buffers)@.len(),
            total == src@.len(),
            buffers@ == old(buffers)@,
            lens == old(buffers)@.map_values(|b: Vec<u8>| b@),
            lens.flatten_alt().len() == src@.len(),
            k <= n,
            out@.len() == k,
            forall|j: int| 0 <= j < k ==> (#[trigger] out@[j])@.len() == old(buffers)@[j]@.len(),
            pos == lens.take(k as int).flatten_alt().len(),
            buffers_content(out@) == src@.take(pos as int),
        decreases n - k,
    {
        let len = buffers[k].len();
        proof {
            assert(lens.take(k + 1).drop_last() =~= lens.take(k as int));
            assert(lens.take(k + 1).last() == lens[k as int]);
            assert(lens.take(k + 1).flatten_alt().len() == pos + len);
            lens.take(k + 1).lemma_flatten_and_flatten_alt_are_equivalent();
            lens.lemma_flatten_and_flatten_alt_are_equivalent();
            assert(lens =~= lens.take(k + 1) + lens.skip(k + 1));
            lemma_flatten_len_split(lens, k + 1);
            assert(pos + len <= src@.len());
        }
        let mut chunk: Vec<u8> = Vec::new();
        let mut j: usize = 0;
        while j < len
            invariant
                j <= len,
                total == src@.len(),
                pos + len <= src@.len(),
                chunk@ =~= src@.subrange(pos as int, pos + j),
            decreases len - j,
        {
            chunk.push(src[pos + j]);
            j = j + 1;
        }
        let ghost before = out@;
        out.push(chunk);
        proof {
            assert(out@ =~= before.push(chunk));
            assert(out@.map_values(|b: Vec<u8>| b@) =~= before.map_values(|b: Vec<u8>| b@).push(
                chunk@,
            ));
            before.map_values(|b: Vec<u8>| b@).lemma_flatten_push(chunk@);
            assert(buffers_content(out@) =~= src@.take(pos + len));
        }
        pos = pos + len;
        k = k + 1;
    }
    proof {
        assert(lens.take(n as int) =~= lens);
        assert(src@.take(pos as int) =~= src@);
    }
    *buffers = out;
}

/// The length of a flattened list is the length of its first `k` parts
/// flattened plus the length of the rest flattened.
proof fn lemma_flatten_len_split(s: Seq<Seq<u8>>, k: int)
    requires
        0 <= k <= s.len(),
    ensures
        s.flatten_alt().len() == s.take(k).flatten_alt().len() + s.skip(k).flatten_alt().len(),
    decreases s.len() - k,
{
    if k < s.len() {
        lemma_flatten_len_split(s, k + 1);
        let a = s.take(k + 1);
        assert(a.drop_last() =~= s.take(k));
        assert(a.last() == s[k]);
        let b = s.skip(k);
        b.lemma_flatten_and_flatten_alt_are_equivalent();
        s.skip(k + 1).lemma_flatten_and_flatten_alt_are_equivalent();
        assert(b.drop_first() =~= s.skip(k + 1));
        assert(b.first() == s[k]);
    } else {
        assert(s.take(k) =~= s);
        assert(s.skip(k).len() == 0);
    }
}

/// get time with second and microsecond
///
/// `us` is the time in microseconds; `buffers` are the pieces of user memory,
/// in order, that hold the `TimeVal` the caller points at. The seconds and
/// microseconds are written across them, and 0 is returned.
pub fn sys_get_time(us: usize, buffers: &mut Vec<Vec<u8>>) -> (ret: isize)
    requires
        buffers_content(old(buffers)@).len() == 2 * usize_bytes(),
    ensures
        ret == 0,
        final(buffers)@.len() == old(buffers)@.len(),
        forall|k: int|
            0 <= k < old(buffers)@.len() ==> (#[trigger] final(buffers)@[k])@.len() == old(
                buffers,
            )@[k]@.len(),
        buffers_content(final(buffers)@) == timeval_bytes(
            (us / 1_000_000) as usize,
            (us % 1_000_000) as usize,
        ),
        le_value(buffers_content(final(buffers)@).take(usize_bytes() as int)) == us / 1_000_000,
        le_value(buffers_content(final(buffers)@).skip(usize_bytes() as int)) == us % 1_000_000,
{
    proof {
        law_timeval_bytes_decode((us / 1_000_000) as usize, (us % 1_000_000) as usize);
    }
    let timeval = TimeVal::from_us(us);
    let bytes = timeval.to_bytes();
    proof {
        lemma_le_bytes_len(timeval.sec as nat, usize_bytes());
        lemma_le_bytes_len(timeval.usec as nat, usize_bytes());
    }
    scatter(&bytes, buffers);
    0
}

/// current task gives up resources for other tasks
///
/// The kernel suspends the task and runs the next; once the task runs
/// again, the call answers 0.
pub fn sys_yield() -> (ret: isize)
    ensures
        ret == 0,
{
    0
}

/// The flags of the page table entry that maps an address.
#[derive(Clone, Copy, Debug)]
pub struct PteFlags {
    pub valid: bool,
    pub user: bool,
    pub readable: bool,
    pub writable: bool,
}

/// What `sys_trace` answers, and the byte it stores at the traced address.
#[derive(Clone, Copy, Debug)]
pub struct TraceOutcome {
    pub ret: isize,
    pub store: Option<u8>,
}

/// Trace the user program: read a byte of its memory (request 0), write one
/// (request 1), or count the calls it made to a system call (request 2).
///
/// The kernel looks up the address `id` in the task's page table and hands
/// over what it found: `pte` is the entry that maps its page, if any, and
/// `byte` the byte stored at `id` (read only when the page is mapped);
/// `syscall_count` is how many times the task called system call `id`.
/// When `store` is `Some(b)`, the kernel writes `b` at `id`.
pub fn sys_trace(
    trace_request: usize,
    data: usize,
    pte: Option<PteFlags>,
    byte: u8,
    syscall_count: usize,
) -> (out: TraceOutcome)
    ensures
        trace_request == 0 ==> out == (match pte {
            Some(f) => if f.valid && f.user && f.readable {
                TraceOutcome { ret: byte as isize, store: None }
            } else {
                TraceOutcome { ret: -1isize, store: None }
            },
            None => TraceOutcome { ret: -1isize, store: None },
        }),
        trace_request == 1 ==> out == (match pte {
            Some(f) => if f.valid && f.user && f.writable {
                TraceOutcome { ret: 0, store: Some(data as u8) }
            } else {
                TraceOutcome { ret: -1isize, store: None }
            },
            None => TraceOutcome { ret: -1isize, store: None },
        }),
        trace_request == 2 ==> out == (TraceOutcome { ret: syscall_count as isize, store: None }),
        trace_request > 2 ==> out == (TraceOutcome { ret: -1isize, store: None }),
{
    if trace_request == 0 || trace_request == 1 {
        if let Some(f) = pte {
            if !f.valid || !f.user {
                return TraceOutcome { ret: -1isize, store: None };
            }
            if trace_request == 0 {
                // read
                if f.readable {
                    TraceOutcome { ret: byte as isize, store: None }
                } else {
                    TraceOutcome { ret: -1isize, store: None }
                }
            } else {
                // write
                if f.writable {
                    TraceOutcome { ret: 0, store: Some(data as u8) }
                } else {
                    TraceOutcome { ret: -1isize, store: None }
                }
            }
        } else {
            TraceOutcome { ret: -1isize, store: None }
        }
    } else if trace_request == 2 {
        TraceOutcome { ret: syscall_count as isize, store: None }
    } else {
        TraceOutcome { ret: -1isize, store: None }
    }
}

/// Access rights of a mapped area.
#[derive(Clone, Copy, Debug)]
pub struct MapPermission {
    pub readable: bool,
    pub writable: bool,
    pub executable: bool,
    pub user: bool,
}

/// An area of the task's address space, from `start` up to `end`.
#[derive(Clone, Copy, Debug)]
pub struct MapArea {
    pub start: usize,
    pub end: usize,
    pub permission: MapPermission,
}

/// The address is the first of a page.
pub open spec fn page_aligned(addr: usize) -> bool {
    addr % PAGE_SIZE == 0
}

/// `prot` asks for some access, only with its three low bits (read, write,
/// execute), and asks to read whenever it asks to write.
pub open spec fn prot_valid(prot: usize) -> bool {
    &&& 1 <= prot <= 7
    &&& (prot / 2) % 2 == 1 ==> prot % 2 == 1
}

/// The rights that `prot` asks for, for a user area.
pub open spec fn prot_permission(prot: usize) -> MapPermission {
    MapPermission {
        readable: prot % 2 == 1,
        writable: (prot / 2) % 2 == 1,
        executable: (prot / 4) % 2 == 1,
        user: true,
    }
}

/// The rules for mapping, in the terms of the call: a start is aligned when it
/// is a multiple of 4096; `prot` is accepted when it is 1 to 7 and does not
/// ask to write without asking to read; bit 0 gives read, bit 1 write and
/// bit 2 execute, and the area is always for the user.
pub proof fn law_mmap_rules(start: usize, prot: usize)
    ensures
        page_aligned(start) == (start % 4096 == 0),
        prot_valid(prot) == (1 <= prot <= 7 && !((prot & 2) != 0 && (prot & 1) == 0)),
        prot_permission(prot) == (MapPermission {
            readable: (prot & 1) != 0,
            writable: (prot & 2) != 0,
            executable: (prot & 4) != 0,
            user: true,
        }),
{
    assert((prot & 0x1usize) != 0usize <==> prot % 2 == 1) by (bit_vector);
    assert((prot & 0x2usize) != 0usize <==> (prot / 2) % 2 == 1) by (bit_vector);
    assert((prot & 0x4usize) != 0usize <==> (prot / 4) % 2 == 1) by (bit_vector);
}

/// The area that a call to map `len` bytes from `start` with the rights in
/// `prot` (bit 0 read, bit 1 write, bit 2 execute) asks for; `None` when the
/// call is to be refused.
pub fn mmap_area(start: usize, len: usize, prot: usize) -> (area: Option<MapArea>)
    requires
        page_aligned(start) ==> start + len <= usize::MAX,
    ensures
        area is Some <==> page_aligned(start) && prot_valid(prot),
        area matches Some(a) ==> a == (MapArea {
            start,
            end: (start + len) as usize,
            permission: prot_permission(prot),
        }),
        start % 4096 == 0 && 1 <= prot <= 7 && !((prot & 2) != 0 && (prot & 1) == 0) ==> (
        area matches Some(a) && a.start == start && a.end == start + len && a.permission.readable
            == ((prot & 1) != 0) && a.permission.writable == ((prot & 2) != 0)
            && a.permission.executable == ((prot & 4) != 0) && a.permission.user),
        !(start % 4096 == 0 && 1 <= prot <= 7 && !((prot & 2) != 0 && (prot & 1) == 0)) ==> area
            is None,
{
    proof {
        law_mmap_rules(start, prot);
    }
    if start % PAGE_SIZE != 0 {
        return None;
    }
    let end = start + len;
    proof {
        assert((prot & !0x7usize) == 0usize <==> prot <= 7usize) by (bit_vector);
        assert((prot & 0x1usize) != 0usize <==> prot % 2 == 1) by (bit_vector);
        assert((prot & 0x2usize) != 0usize <==> (prot / 2) % 2 == 1) by (bit_vector);
        assert((prot & 0x4usize) != 0usize <==> (prot / 4) % 2 == 1) by (bit_vector);
    }
    if prot == 0 || (prot & !0x7usize != 0) {
        return None;
    }
    // when write bit is set but read bit is not set
    if prot & 0x2usize != 0 && prot & 0x1usize == 0 {
        return None;
    }
    let permission = MapPermission {
        readable: (prot & 0x1usize) != 0,
        writable: (prot & 0x2usize) != 0,
        executable: (prot & 0x4usize) != 0,
        user: true,
    };
    Some(MapArea { start, end, permission })
}

/// The range that a call to unmap `len` bytes from `start` asks for; `None`
/// when the call is to be refused.
pub fn munmap_range(start: usize, len: usize) -> (range: Option<(usize, usize)>)
    requires
        page_aligned(start) ==> start + len <= usize::MAX,
    ensures
        range is Some <==> page_aligned(start),
        range matches Some(r) ==> r == (start, (start + len) as usize),
        range is Some <==> start % 4096 == 0,
{
    proof {
        law_mmap_rules(start, 0);
    }
    if start % PAGE_SIZE != 0 {
        return None;
    }
    Some((start, start + len))
}

/// change data segment size
///
/// `old_brk` is what the kernel answered when asked to move the program
/// break: the break before the move, or `None` when it could not move it.
pub fn sys_sbrk(old_brk: Option<usize>) -> (ret: isize)
    ensures
        ret == match old_brk {
            Some(b) => b as isize,
            None => -1isize,
        },
{
    if let Some(b) = old_brk {
        b as isize
    } else {
        -1
    }
}

/// Map memory into the task: `len` bytes from `start`, with the rights in
/// `prot` (bit 0 read, bit 1 write, bit 2 execute).
///
/// A refused call is answered -1 and maps nothing. Otherwise the area is
/// handed once to `mmap_current` (start, end, rights), which maps it into
/// the current task and tells whether it did; the call is answered 0 if it
/// did and -1 if not.
pub fn sys_mmap<F: FnOnce(usize, usize, MapPermission) -> bool>(
    start: usize,
    len: usize,
    prot: usize,
    mmap_current: F,
) -> (ret: isize)
    requires
        page_aligned(start) ==> start + len <= usize::MAX,
        page_aligned(start) && prot_valid(prot) ==> call_requires(
            mmap_current,
            (start, (start + len) as usize, prot_permission(prot)),
        ),
    ensures
        !(page_aligned(start) && prot_valid(prot)) ==> ret == -1,
        start % 4096 != 0 || prot == 0 || prot > 7 || ((prot & 2) != 0 && (prot & 1) == 0)
            ==> ret == -1,
        page_aligned(start) && prot_valid(prot) ==> {
            ||| ret == 0 && call_ensures(
                mmap_current,
                (start, (start + len) as usize, prot_permission(prot)),
                true,
            )
            ||| ret == -1 && call_ensures(
                mmap_current,
                (start, (start + len) as usize, prot_permission(prot)),
                false,
            )
        },
{
    proof {
        law_mmap_rules(start, prot);
    }
    match mmap_area(start, len, prot) {
        None => -1,
        Some(area) => {
            if mmap_current(area.start, area.end, area.permission) {
                0
            } else {
                -1
            }
        },
    }
}

/// Unmap memory from the task: `len` bytes from `start`.
///
/// A refused call is answered -1 and unmaps nothing. Otherwise the range is
/// handed once to `munmap_current` (start, end), which unmaps it from the
/// current task and tells whether it did; the call is answered 0 if it did
/// and -1 if not.
pub fn sys_munmap<F: FnOnce(usize, usize) -> bool>(
    start: usize,
    len: usize,
    munmap_current: F,
) -> (ret: isize)
    requires
        page_aligned(start) ==> start + len <= usize::MAX,
        page_aligned(start) ==> call_requires(munmap_current, (start, (start + len) as usize)),
    ensures
        !page_aligned(start) ==> ret == -1,
        start % 4096 != 0 ==> ret == -1,
        page_aligned(start) ==> {
            ||| ret == 0 && call_ensures(munmap_current, (start, (start + len) as usize), true)
            ||| ret == -1 && call_ensures(munmap_current, (start, (start + len) as usize), false)
        },
{
    proof {
        law_mmap_rules(start, 0);
    }
    match munmap_range(start, len) {
        None => -1,
        Some((s, e)) => {
            if munmap_current(s, e) {
                0
            } else {
                -1
            }
        },
    }
}

} // verus!
