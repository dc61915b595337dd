//! The host side of the interface between the node and a WebAssembly function:
//! how the function reads its arguments and hands back its result.
//!
//! The function's linear memory is a byte slice here; the runtime embedding
//! passes it in on each call.

use vstd::prelude::*;

verus! {

/// Name of the function that the runtime calls to start a computation.
pub fn entrypoint_name() -> (r: String)
    ensures
        r@ == "_ipcs_start"@,
{
    "_ipcs_start".to_string()
}

/// The data that a running function exchanges with the host: its arguments and
/// the result it has returned so far.
pub struct IoData {
    pub ret: Vec<u8>,
    pub args: Vec<Vec<u8>>,
}

/// `mem` with the `len` bytes at `ptr` replaced by the bytes of `arg` from `offset` on.
pub open spec fn copied_in(mem: Seq<u8>, arg: Seq<u8>, ptr: int, offset: int, len: int) -> Seq<u8> {
    Seq::new(mem.len(), |i: int| if ptr <= i < ptr + len { arg[offset + i - ptr] } else { mem[i] })
}

impl IoData {
    /// Host data for a function run on `args`, with nothing returned yet.
    pub fn new(args: Vec<Vec<u8>>) -> (io: IoData)
        ensures
            io.ret@ == Seq::<u8>::empty(),
            io.args@ == args@,
    {
        IoData { ret: Vec::new(), args }
    }

    /// Number of arguments, as a 32-bit value (the count is truncated to 32 bits).
    pub fn arg_count(&self) -> (n: u32)
        ensures
            n == self.args@.len() as u32,
    {
        self.args.len() as u32
    }

    /// Length of argument `idx`, as a 32-bit value (truncated to 32 bits).
    pub fn arg_len(&self, idx: u32) -> (n: u32)
        requires
            idx < self.args@.len(),
        ensures
            n == self.args@[idx as int]@.len() as u32,
    {
        self.args[idx as usize].len() as u32
    }

    /// Copies `len` bytes of argument `idx`, from `offset` on, into `mem` at `ptr`,
    /// and returns how many bytes were copied. Both ranges must lie within their
    /// buffers, and their ends within 32 bits.
    pub fn arg_read(&self, mem: &mut [u8], idx: u32, ptr: u32, offset: u32, len: u32) -> (count: u32)
        requires
            idx < self.args@.len(),
            offset + len <= u32::MAX,
            ptr + len <= u32::MAX,
            offset + len <= self.args@[idx as int]@.len(),
            ptr + len <= old(mem)@.len(),
        ensures
            count == len,
            final(mem)@ == copied_in(old(mem)@, self.args@[idx as int]@, ptr as int, offset as int, len as int),
    {
        let arg = &self.args[idx as usize];
        let mut count: u32 = 0;
        while count < len
            invariant
                arg@ == self.args@[idx as int]@,
                count <= len,
                offset + len <= arg@.len(),
                ptr + len <= mem@.len(),
                offset + len <= u32::MAX,
                ptr + len <= u32::MAX,
                mem@ == copied_in(old(mem)@, arg@, ptr as int, offset as int, count as int),
            decreases len - count,
        {
            let src = arg[(offset + count) as usize];
            mem[(ptr + count) as usize] = src;
            proof {
                assert(mem@ =~= copied_in(old(mem)@, arg@, ptr as int, offset as int, count + 1));
            }
            count = count + 1;
        }
        count
    }

    /// Appends the `len` bytes of `mem` at `ptr` to the returned data. The range
    /// must lie within `mem`, and its end within 32 bits.
    pub fn ret(&mut self, mem: &[u8], ptr: u32, len: u32)
        requires
            ptr + len <= u32::MAX,
            ptr + len <= mem@.len(),
        ensures
            final(self).ret@ == old(self).ret@ + mem@.subrange(ptr as int, ptr + len),
            final(self).args@ == old(self).args@,
    {
        let mut i: u32 = ptr;
        while i < ptr + len
            invariant
                ptr <= i <= ptr + len,
                ptr + len <= mem@.len(),
                ptr + len <= u32::MAX,
                self.args@ == old(self).args@,
                self.ret@ == old(self).ret@ + mem@.subrange(ptr as int, i as int),
            decreases ptr + len - i,
        {
            self.ret.push(mem[i as usize]);
            proof {
                assert(mem@.subrange(ptr as int, i + 1) =~= mem@.subrange(ptr as int, i as int).push(mem@[i as int]));
            }
            i = i + 1;
        }
    }
}

/// What a function reads is what the host holds: after `len` bytes of an argument
/// are copied in at `ptr`, returning those `len` bytes from `ptr` hands back exactly
/// that part of the argument, and the rest of the memory is unchanged.
pub proof fn law_read_then_return(mem: Seq<u8>, arg: Seq<u8>, ptr: int, offset: int, len: int)
    requires
        0 <= ptr,
        0 <= offset,
        0 <= len,
        offset + len <= arg.len(),
        ptr + len <= mem.len(),
    ensures
        copied_in(mem, arg, ptr, offset, len).subrange(ptr, ptr + len) == arg.subrange(offset, offset + len),
        forall|i: int| 0 <= i < mem.len() && !(ptr <= i < ptr + len) ==> #[trigger] copied_in(mem, arg, ptr, offset, len)[i] == mem[i],
        copied_in(mem, arg, ptr, offset, len).len() == mem.len(),
{
    assert(copied_in(mem, arg, ptr, offset, len).subrange(ptr, ptr + len) =~= arg.subrange(offset, offset + len));
}

/// The data returned after a function returned `parts` in turn, starting with
/// `ret`: each return appends its bytes, as [`IoData::ret`] states.
pub open spec fn returned_after(ret: Seq<u8>, parts: Seq<Seq<u8>>) -> Seq<u8>
    decreases parts.len(),
{
    if parts.len() == 0 {
        ret
    } else {
        returned_after(ret, parts.drop_last()) + parts.last()
    }
}

/// Successive returns concatenate: a function that returns `parts` in turn,
/// starting from nothing returned, has returned their concatenation, in order.
pub proof fn law_returns_concatenate(parts: Seq<Seq<u8>>)
    ensures
        returned_after(Seq::empty(), parts) == crate::encoding::concat_bytes(parts),
    decreases parts.len(),
{
    if parts.len() > 0 {
        law_returns_concatenate(parts.drop_last());
    }
}

/// Reading a whole argument from its start gives it back: after all of `arg` is
/// copied in at `ptr`, the memory from `ptr` holds exactly `arg`.
pub proof fn law_read_whole_argument(mem: Seq<u8>, arg: Seq<u8>, ptr: int)
    requires
        0 <= ptr,
        ptr + arg.len() <= mem.len(),
    ensures
        copied_in(mem, arg, ptr, 0, arg.len() as int).subrange(ptr, ptr + arg.len()) == arg,
{
    law_read_then_return(mem, arg, ptr, 0, arg.len() as int);
    assert(arg.subrange(0, arg.len() as int) =~= arg);
}

} // verus!
