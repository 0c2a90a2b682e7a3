//! How the primitives of embedded kernels answer a program under test: which calls are
//! faked, what a receive delivers, and which memory stands for a device.

use vstd::prelude::*;
use vstd::string::*;

use crate::text::{all_hex, byte_chars, cat2, chars_of, hex, hex_text, hex_value};

verus! {

/// How many messages a channel delivers before it is empty.
pub const DELIVERY_CAP: usize = 256;

/// How many bytes of a message are filled at most.
pub const MSG_FILL_CAP: usize = 65536;

pub const VX_OK: i32 = 0;

pub const VX_ERROR: i32 = -1;

pub const PD_TRUE: i32 = 1;

pub const PD_FALSE: i32 = 0;

pub const CFE_SUCCESS: i32 = 0;

pub const CFE_SB_NO_MESSAGE: i32 = -14;

/// How long the message buffer of the software bus is.
pub const CFE_MSG_BUF_LEN: usize = 4096;

/// The first handle of a queue.
pub const XQUEUE_HANDLE_BASE: usize = 0x0B0F_0000;

/// How many queues are remembered.
pub const XQUEUE_CAP: usize = 256;

/// How the outside world is shown to the program under test.
#[derive(Debug, Clone, Copy, PartialEq, Eq, Structural)]
pub enum Mode {
    /// As it is.
    Audit,
    /// As absent.
    Empty,
    /// With pseudo-random bytes.
    Rng,
    /// With the bytes of the input.
    FuzzDriven,
}

impl Mode {
    pub open spec fn fakes(self) -> bool {
        self != Mode::Audit
    }

    pub fn is_faking(self) -> (r: bool)
        ensures
            r == self.fakes(),
    {
        self != Mode::Audit
    }
}

/// Whether an attempt to receive is counted: not where the world is absent.
pub fn counts_attempts(mode: Mode) -> (r: bool)
    ensures
        r == (mode != Mode::Empty),
{
    mode != Mode::Empty
}

/// How many bytes a receive is to fill, after `earlier` counted attempts on the channel;
/// `None` where no message is delivered.
pub open spec fn delivery(mode: Mode, earlier: usize, buffer: bool, max_len: usize) -> Option<
    usize,
> {
    if mode == Mode::Empty || earlier >= DELIVERY_CAP {
        None
    } else if !buffer {
        Some(0)
    } else if max_len <= MSG_FILL_CAP {
        Some(max_len)
    } else {
        Some(MSG_FILL_CAP)
    }
}

pub fn deliver_body(mode: Mode, earlier: usize, buffer: bool, max_len: usize) -> (r: Option<usize>)
    ensures
        r == delivery(mode, earlier, buffer, max_len),
{
    if mode == Mode::Empty {
        return None;
    }
    if earlier >= DELIVERY_CAP {
        return None;
    }
    if !buffer || max_len == 0 {
        return Some(0);
    }
    if max_len <= MSG_FILL_CAP {
        Some(max_len)
    } else {
        Some(MSG_FILL_CAP)
    }
}

/// How many of the first `attempts` attempts on a channel deliver a message.
pub open spec fn deliveries(mode: Mode, attempts: nat, buffer: bool, max_len: usize) -> nat
    decreases attempts,
{
    if attempts == 0 {
        0
    } else {
        let before = deliveries(mode, (attempts - 1) as nat, buffer, max_len);
        if delivery(mode, (attempts - 1) as usize, buffer, max_len) is Some {
            before + 1
        } else {
            before
        }
    }
}

/// A loop that receives comes to an end: a channel delivers its first messages, up to the
/// cap, and none after them; none at all where the world is absent.
pub proof fn a_channel_runs_dry(mode: Mode, attempts: nat, buffer: bool, max_len: usize)
    requires
        attempts <= usize::MAX,
    ensures
        deliveries(mode, attempts, buffer, max_len) == if mode == Mode::Empty {
            0
        } else if attempts <= DELIVERY_CAP {
            attempts as int
        } else {
            DELIVERY_CAP as int
        },
    decreases attempts,
{
    if attempts > 0 {
        a_channel_runs_dry(mode, (attempts - 1) as nat, buffer, max_len);
    }
}

/// A receive fills no more than the caller's buffer holds.
pub proof fn a_receive_stays_in_the_buffer(
    mode: Mode,
    earlier: usize,
    buffer: bool,
    max_len: usize,
)
    ensures
        match delivery(mode, earlier, buffer, max_len) {
            Some(n) => n <= max_len && n <= MSG_FILL_CAP && (!buffer ==> n == 0),
            None => true,
        },
{
}

/// The error that a call leaves behind.
#[derive(Debug, Clone, Copy, PartialEq, Eq, Structural)]
pub enum Errno {
    /// It is left as it is.
    Keep,
    TimedOut,
    NoSystem,
    Invalid,
    Exists,
}

/// How a call is answered.
#[derive(Debug, Clone, Copy, PartialEq, Eq, Structural)]
pub enum Reply {
    /// By the function of a real kernel.
    Real,
    /// With a number; `logged` is recorded where there is one.
    Give { code: i32, errno: Errno, logged: Option<i64> },
}

/// How a call that makes a handle is answered.
#[derive(Debug, Clone, Copy, PartialEq, Eq, Structural)]
pub enum HandleReply {
    Real,
    /// With a handle that is not null; the call is recorded or not.
    Handle { logged: bool },
}

/// The answer to `msgQCreate`.
pub fn message_queue_create(mode: Mode, resolved: bool) -> (r: HandleReply)
    ensures
        r == if !mode.fakes() && resolved {
            HandleReply::Real
        } else {
            HandleReply::Handle { logged: mode.fakes() }
        },
{
    if mode.is_faking() {
        return HandleReply::Handle { logged: true };
    }
    if resolved {
        HandleReply::Real
    } else {
        HandleReply::Handle { logged: false }
    }
}

/// The answer to `msgQReceive`: the number of bytes that were delivered, or an error where
/// there was no message or no kernel.
pub fn message_queue_receive(mode: Mode, delivered: Option<usize>, resolved: bool) -> (r: Reply)
    requires
        delivered is Some ==> delivered->0 <= MSG_FILL_CAP,
    ensures
        r == if mode.fakes() {
            match delivered {
                Some(n) => Reply::Give {
                    code: n as i32,
                    errno: Errno::Keep,
                    logged: Some(n as i64),
                },
                None => Reply::Give { code: VX_ERROR, errno: Errno::TimedOut, logged: None },
            }
        } else if resolved {
            Reply::Real
        } else {
            Reply::Give { code: VX_ERROR, errno: Errno::NoSystem, logged: None }
        },
{
    if mode.is_faking() {
        match delivered {
            Some(n) => Reply::Give { code: n as i32, errno: Errno::Keep, logged: Some(n as i64) },
            None => Reply::Give { code: VX_ERROR, errno: Errno::TimedOut, logged: None },
        }
    } else if resolved {
        Reply::Real
    } else {
        Reply::Give { code: VX_ERROR, errno: Errno::NoSystem, logged: None }
    }
}

/// The answer to `msgQSend`: nobody receives, and that is no error.
pub fn message_queue_send(mode: Mode, resolved: bool) -> (r: Reply)
    ensures
        r == if mode.fakes() {
            Reply::Give { code: VX_OK, errno: Errno::Keep, logged: Some(0) }
        } else if resolved {
            Reply::Real
        } else {
            Reply::Give { code: VX_OK, errno: Errno::Keep, logged: None }
        },
{
    if mode.is_faking() {
        Reply::Give { code: VX_OK, errno: Errno::Keep, logged: Some(0) }
    } else {
        release(mode, resolved)
    }
}

/// The answer to `msgQDelete`, `semGive` and `semDelete`.
pub fn release(mode: Mode, resolved: bool) -> (r: Reply)
    ensures
        r == if !mode.fakes() && resolved {
            Reply::Real
        } else {
            Reply::Give { code: VX_OK, errno: Errno::Keep, logged: None }
        },
{
    if !mode.is_faking() && resolved {
        Reply::Real
    } else {
        Reply::Give { code: VX_OK, errno: Errno::Keep, logged: None }
    }
}

/// The answer to the functions that make a semaphore: a handle, whatever the mode.
pub fn semaphore_create(mode: Mode) -> (r: HandleReply)
    ensures
        r == (HandleReply::Handle { logged: mode.fakes() }),
{
    HandleReply::Handle { logged: mode.is_faking() }
}

/// The answer to `semTake`: the guarded section runs, but where the world is absent.
pub fn semaphore_take(mode: Mode, resolved: bool) -> (r: Reply)
    ensures
        r == match mode {
            Mode::Empty => Reply::Give { code: VX_ERROR, errno: Errno::TimedOut, logged: None },
            Mode::Rng | Mode::FuzzDriven => Reply::Give {
                code: VX_OK,
                errno: Errno::Keep,
                logged: Some(0),
            },
            Mode::Audit => if resolved {
                Reply::Real
            } else {
                Reply::Give { code: VX_OK, errno: Errno::Keep, logged: None }
            },
        },
{
    if mode.is_faking() {
        if mode == Mode::Empty {
            return Reply::Give { code: VX_ERROR, errno: Errno::TimedOut, logged: None };
        }
        return Reply::Give { code: VX_OK, errno: Errno::Keep, logged: Some(0) };
    }
    if resolved {
        Reply::Real
    } else {
        Reply::Give { code: VX_OK, errno: Errno::Keep, logged: None }
    }
}

/// The queues that were made, by the size of their items. The handle of a queue is the
/// base and its number.
pub struct QueueTable {
    sizes: Vec<usize>,
}

impl View for QueueTable {
    type V = Seq<usize>;

    closed spec fn view(&self) -> Seq<usize> {
        self.sizes@
    }
}

/// The size of a queue's items, where the queue is known.
pub open spec fn size_of_items(queues: Seq<usize>, handle: usize) -> Option<usize> {
    if XQUEUE_HANDLE_BASE <= handle < XQUEUE_HANDLE_BASE + queues.len() {
        Some(queues[handle - XQUEUE_HANDLE_BASE])
    } else {
        None
    }
}

/// What is remembered after a queue was made, and its handle, `None` for one that is not
/// remembered: in no faking mode, or where the table is full.
pub open spec fn with_queue(queues: Seq<usize>, mode: Mode, item_size: usize) -> (
    Seq<usize>,
    Option<usize>,
) {
    if mode.fakes() && queues.len() < XQUEUE_CAP {
        (queues.push(item_size), Some((XQUEUE_HANDLE_BASE + queues.len()) as usize))
    } else {
        (queues, None)
    }
}

impl QueueTable {
    pub fn new() -> (r: Self)
        ensures
            r@ == Seq::<usize>::empty(),
    {
        QueueTable { sizes: Vec::new() }
    }

    /// Makes a queue: its handle, where it is remembered.
    pub fn create(&mut self, mode: Mode, item_size: usize) -> (r: Option<usize>)
        ensures
            final(self)@ == with_queue(old(self)@, mode, item_size).0,
            r == with_queue(old(self)@, mode, item_size).1,
    {
        if mode.is_faking() {
            if self.sizes.len() < XQUEUE_CAP {
                let handle: usize = XQUEUE_HANDLE_BASE + self.sizes.len();
                self.sizes.push(item_size);
                return Some(handle);
            }
        }
        None
    }

    /// The size of a queue's items, `None` for a queue that was not made here.
    pub fn item_size(&self, handle: usize) -> (r: Option<usize>)
        ensures
            r == size_of_items(self@, handle),
    {
        if handle < XQUEUE_HANDLE_BASE {
            return None;
        }
        let at: usize = handle - XQUEUE_HANDLE_BASE;
        if at < self.sizes.len() {
            Some(self.sizes[at])
        } else {
            None
        }
    }
}

/// A queue is found by the handle that its making gave, with the size that it was made
/// with, and making it takes nothing from the queues before it.
pub proof fn a_queue_keeps_its_size(queues: Seq<usize>, mode: Mode, item_size: usize)
    ensures
        match with_queue(queues, mode, item_size) {
            (after, Some(handle)) => {
                &&& size_of_items(after, handle) == Some(item_size)
                &&& size_of_items(queues, handle) is None
                &&& forall|h: usize|
                    h != handle ==> #[trigger] size_of_items(after, h) == size_of_items(queues, h)
            },
            (after, None) => after == queues,
        },
{
}

/// The answer to `xQueueReceive`, for a queue whose item size is known and a message that
/// was delivered: an item of an unknown queue cannot be copied, as its size is not known.
pub fn queue_receive(mode: Mode, known: bool, delivered: Option<usize>) -> (r: Reply)
    requires
        delivered is Some ==> delivered->0 <= MSG_FILL_CAP,
    ensures
        r == if mode.fakes() && known && delivered is Some {
            Reply::Give { code: PD_TRUE, errno: Errno::Keep, logged: Some(delivered->0 as i64) }
        } else {
            Reply::Give { code: PD_FALSE, errno: Errno::Keep, logged: None }
        },
{
    if mode.is_faking() && known {
        if let Some(n) = delivered {
            return Reply::Give { code: PD_TRUE, errno: Errno::Keep, logged: Some(n as i64) };
        }
    }
    Reply::Give { code: PD_FALSE, errno: Errno::Keep, logged: None }
}

/// The answer to `xQueueGenericSend`: success, whatever the mode.
pub fn queue_send() -> (r: Reply)
    ensures
        r == (Reply::Give { code: PD_TRUE, errno: Errno::Keep, logged: None }),
{
    Reply::Give { code: PD_TRUE, errno: Errno::Keep, logged: None }
}

/// Whether the software bus is asked for a message at all: it is faked, and there is a
/// place to put the message's address.
pub fn bus_can_deliver(mode: Mode, place: bool) -> (r: bool)
    ensures
        r == (mode.fakes() && place),
{
    mode.is_faking() && place
}

/// The answer to `CFE_SB_RcvMsg` and `CFE_SB_ReceiveBuffer`. Where it is success, the
/// message's address is put in its place.
pub fn bus_receive(mode: Mode, place: bool, delivered: Option<usize>) -> (r: Reply)
    ensures
        r == if mode.fakes() && place && delivered is Some {
            Reply::Give {
                code: CFE_SUCCESS,
                errno: Errno::Keep,
                logged: Some(CFE_MSG_BUF_LEN as i64),
            }
        } else {
            Reply::Give { code: CFE_SB_NO_MESSAGE, errno: Errno::Keep, logged: None }
        },
{
    if bus_can_deliver(mode, place) && delivered.is_some() {
        Reply::Give {
            code: CFE_SUCCESS,
            errno: Errno::Keep,
            logged: Some(CFE_MSG_BUF_LEN as i64),
        }
    } else {
        Reply::Give { code: CFE_SB_NO_MESSAGE, errno: Errno::Keep, logged: None }
    }
}

/// The answer to `CFE_SB_CreatePipe`: success, recorded where it is faked.
pub fn pipe_create(mode: Mode) -> (r: Reply)
    ensures
        r == (Reply::Give {
            code: CFE_SUCCESS,
            errno: Errno::Keep,
            logged: if mode.fakes() {
                Some(0i64)
            } else {
                None
            },
        }),
{
    let logged: Option<i64> = if mode.is_faking() {
        Some(0)
    } else {
        None
    };
    Reply::Give { code: CFE_SUCCESS, errno: Errno::Keep, logged }
}

/// The size of a page: what the system says, or the common size where it says none.
pub fn page_size_of(said: i64) -> (r: usize)
    requires
        said <= usize::MAX,
    ensures
        r == if said > 0 {
            said as int
        } else {
            4096
        },
{
    if said > 0 {
        said as usize
    } else {
        4096
    }
}

/// Where the page of an address begins.
pub open spec fn page_of(addr: int, page: int) -> int {
    addr - addr % page
}

/// How long the pages are that cover `len` bytes at an address.
pub open spec fn pages_len(addr: int, len: int, page: int) -> int {
    let span = addr % page + len;
    (span + page - 1) / page * page
}

/// The memory that stands for a device.
#[derive(Debug, Clone, Copy, PartialEq, Eq, Structural)]
pub struct MmioWindow {
    pub base: usize,
    pub len: usize,
}

/// The pages that cover `len` bytes at `addr`; `None`, an invalid request, for no address
/// or no bytes.
pub fn mmio_window(addr: usize, len: usize, page: usize) -> (r: Option<MmioWindow>)
    requires
        page > 0,
        addr != 0 && len != 0 ==> pages_len(addr as int, len as int, page as int) <= usize::MAX,
    ensures
        match r {
            None => addr == 0 || len == 0,
            Some(w) => {
                &&& addr != 0 && len != 0
                &&& w.base == page_of(addr as int, page as int)
                &&& w.len == pages_len(addr as int, len as int, page as int)
            },
        },
{
    if addr == 0 || len == 0 {
        return None;
    }
    let within: usize = addr % page;
    proof {
        vstd::arithmetic::div_mod::lemma_mod_decreases(addr as nat, page as nat);
        lemma_pages(within + len, page as int);
    }
    let base: usize = addr - within;
    let span: usize = within + len;
    let whole: usize = span / page;
    proof {
        let pages = (span + page - 1) / page as int;
        assert(pages <= pages * page) by (nonlinear_arith)
            requires
                pages >= 0,
                page >= 1,
        ;
    }
    let pages: usize = if span % page == 0 {
        whole
    } else {
        whole + 1
    };
    Some(MmioWindow { base, len: pages * page })
}

proof fn lemma_pages(span: int, page: int)
    requires
        page > 0,
        span >= 0,
        (span + page - 1) / page * page <= usize::MAX,
    ensures
        span <= (span + page - 1) / page * page < span + page,
        (span + page - 1) / page == if span % page == 0 {
            span / page
        } else {
            span / page + 1
        },
{
    let q = span / page;
    let rest = span % page;
    vstd::arithmetic::div_mod::lemma_fundamental_div_mod(span, page);
    vstd::arithmetic::div_mod::lemma_mod_bound(span, page);
    assert(q * page == page * q) by (nonlinear_arith);
    if rest == 0 {
        vstd::arithmetic::div_mod::lemma_fundamental_div_mod_converse(
            span + page - 1,
            page,
            q,
            page - 1,
        );
    } else {
        assert((q + 1) * page == q * page + page) by (nonlinear_arith);
        vstd::arithmetic::div_mod::lemma_fundamental_div_mod_converse(
            span + page - 1,
            page,
            q + 1,
            rest - 1,
        );
    }
}

/// The pages of a device cover it and no page more; they are whole pages.
pub proof fn a_window_covers_the_device(addr: int, len: int, page: int)
    requires
        0 < addr,
        0 < len,
        0 < page,
        pages_len(addr, len, page) <= usize::MAX,
    ensures
        page_of(addr, page) % page == 0,
        pages_len(addr, len, page) % page == 0,
        page_of(addr, page) <= addr < page_of(addr, page) + page,
        addr + len <= page_of(addr, page) + pages_len(addr, len, page) < addr + len + page,
{
    vstd::arithmetic::div_mod::lemma_mod_bound(addr, page);
    lemma_pages(addr % page + len, page);
    vstd::arithmetic::div_mod::lemma_fundamental_div_mod(addr, page);
    let q = addr / page;
    assert(page_of(addr, page) == page * q);
    vstd::arithmetic::div_mod::lemma_mod_multiples_basic(q, page);
    assert(q * page == page * q) by (nonlinear_arith);
    vstd::arithmetic::div_mod::lemma_mod_multiples_basic(
        (addr % page + len + page - 1) / page,
        page,
    );
}

/// What follows an attempt to map a window.
#[derive(Debug, Clone, Copy, PartialEq, Eq, Structural)]
pub enum MmioStep {
    /// It failed, and the system says why.
    Fail,
    /// It was mapped elsewhere: that mapping is undone, and the call fails.
    Undo,
    /// It stands where it should: it is filled.
    Fill,
}

/// What follows an attempt to map the window at `base`, which failed or gave an address.
pub fn mmio_mapped(base: usize, mapped: Option<usize>) -> (r: MmioStep)
    ensures
        r == match mapped {
            None => MmioStep::Fail,
            Some(at) => if at == base {
                MmioStep::Fill
            } else {
                MmioStep::Undo
            },
        },
{
    match mapped {
        None => MmioStep::Fail,
        Some(at) => if at == base {
            MmioStep::Fill
        } else {
            MmioStep::Undo
        },
    }
}

/// The key under which a window is filled: its name, which ends in the base.
pub open spec fn window_key(base: nat) -> Seq<char> {
    "mmio:0x"@ + hex(base)
}

proof fn lemma_hex_chars(n: nat)
    ensures
        forall|i: int| 0 <= i < hex(n).len() ==> '0' <= #[trigger] hex(n)[i] <= 'x',
        hex(n).len() >= 1,
        all_hex(hex(n)),
        hex_value(hex(n)) == n,
    decreases n,
{
    if n >= 16 {
        lemma_hex_chars(n / 16);
        assert(hex(n).drop_last() =~= hex(n / 16));
    } else {
        assert(hex(n).drop_last() =~= seq![]);
        assert(hex_value(hex(n).drop_last()) == 0);
    }
}

/// The key under which a window is filled.
pub fn mmio_key(base: usize) -> (r: Vec<u8>)
    ensures
        byte_chars(r@) == window_key(base as nat),
{
    let name = chars_of(cat2("mmio:0x", hex_text(base as u64).as_str()).as_str());
    proof {
        reveal_strlit("mmio:0x");
        lemma_hex_chars(base as nat);
    }
    let mut key: Vec<u8> = Vec::new();
    let mut i: usize = 0;
    while i < name.len()
        invariant
            i <= name@.len(),
            name@ == window_key(base as nat),
            forall|k: int| 0 <= k < name@.len() ==> '0' <= #[trigger] name@[k] <= 'x',
            byte_chars(key@) == name@.take(i as int),
        decreases name@.len() - i,
    {
        let c: char = name[i];
        let ghost before = key@;
        key.push(c as u8);
        proof {
            assert('0' <= name@[i as int] <= 'x');
            assert(byte_chars(key@) =~= byte_chars(before).push(c));
            assert(byte_chars(key@) =~= name@.take(i + 1));
        }
        i += 1;
    }
    proof {
        assert(name@.take(name@.len() as int) =~= name@);
    }
    key
}

/// Windows with different bases are filled independently: their keys differ.
pub proof fn windows_are_filled_independently(one: nat, other: nat)
    requires
        one != other,
    ensures
        window_key(one) != window_key(other),
{
    lemma_hex_chars(one);
    lemma_hex_chars(other);
    let a = window_key(one);
    let b = window_key(other);
    if a == b {
        let skip = "mmio:0x"@.len() as int;
        assert(a.skip(skip) =~= hex(one));
        assert(b.skip(skip) =~= hex(other));
    }
}

/// The vendor channels and the device memory, as an entry of a listing.
pub struct Rtos;

impl Rtos {
    pub fn name(&self) -> (r: &'static str)
        ensures
            r@ == "rtos"@,
    {
        "rtos"
    }

    /// The functions whose calls are answered.
    pub fn intercepts(&self) -> (r: Vec<&'static str>)
        ensures
            r@ == seq![
                "msgQCreate",
                "msgQReceive",
                "msgQSend",
                "msgQDelete",
                "semBCreate",
                "semMCreate",
                "semCCreate",
                "semTake",
                "semGive",
                "semDelete",
                "xQueueCreate",
                "xQueueGenericCreate",
                "xQueueReceive",
                "xQueueGenericReceive",
                "xQueueGenericSend",
                "CFE_SB_CreatePipe",
                "CFE_SB_RcvMsg",
                "CFE_SB_ReceiveBuffer",
                "bhf_shim_mmio_fill",
            ],
    {
        vec![
            "msgQCreate",
            "msgQReceive",
            "msgQSend",
            "msgQDelete",
            "semBCreate",
            "semMCreate",
            "semCCreate",
            "semTake",
            "semGive",
            "semDelete",
            "xQueueCreate",
            "xQueueGenericCreate",
            "xQueueReceive",
            "xQueueGenericReceive",
            "xQueueGenericSend",
            "CFE_SB_CreatePipe",
            "CFE_SB_RcvMsg",
            "CFE_SB_ReceiveBuffer",
            "bhf_shim_mmio_fill",
        ]
    }

    pub fn is_enabled(&self) -> (r: bool)
        ensures
            r,
    {
        true
    }

    pub fn describe(&self) -> (r: &'static str)
        ensures
            r@
                == "deliver fuzz input through vendor-RTOS receive channels (VxWorks msgQReceive/semTake, FreeRTOS xQueueReceive, cFS CFE_SB_RcvMsg) and map fuzz-controlled fixed-address MMIO"@,
    {
        "deliver fuzz input through vendor-RTOS receive channels (VxWorks msgQReceive/semTake, FreeRTOS xQueueReceive, cFS CFE_SB_RcvMsg) and map fuzz-controlled fixed-address MMIO"
    }
}

} // verus!
