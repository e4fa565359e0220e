//! Walking the extensions of an encoded packet in place, one at a time.
use crate::packet::{
    decode_packet, extension_type_byte, extension_type_of_byte, parse_extensions, Extension,
    ExtensionModel, ExtensionType, HEADER_SIZE,
};
use vstd::prelude::*;
use vstd::slice::slice_to_vec;

verus! {

/// The extensions that remain to be read from `b`, from position `idx` where an extension of
/// type number `kind` is announced; none where they cannot be read.
pub open spec fn extensions_from(b: Seq<u8>, idx: int, kind: u8) -> Seq<ExtensionModel> {
    match parse_extensions(b, idx, kind) {
        Ok((exts, _)) => exts,
        Err(_) => Seq::empty(),
    }
}

/// An iterator over the extensions of the bytes of a valid packet.
pub struct ExtensionIterator<'a> {
    raw_bytes: &'a [u8],
    next_extension: ExtensionType,
    index: usize,
}

impl<'a> ExtensionIterator<'a> {
    #[verifier::type_invariant]
    spec fn inv(self) -> bool {
        &&& parse_extensions(self.raw_bytes@, self.index as int, extension_type_byte(self.next_extension)) is Ok
        &&& extension_type_of_byte(extension_type_byte(self.next_extension)) == self.next_extension
    }

    /// The extensions that the iterator has still to yield.
    pub closed spec fn remaining(self) -> Seq<ExtensionModel> {
        extensions_from(self.raw_bytes@, self.index as int, extension_type_byte(self.next_extension))
    }

    /// Creates an iterator over the extensions of `packet`, the bytes of a valid packet.
    pub fn new(packet: &'a [u8]) -> (it: ExtensionIterator<'a>)
        requires
            decode_packet(packet@) is Ok,
        ensures
            it.remaining() == decode_packet(packet@)->Ok_0.extensions,
    {
        let it = ExtensionIterator {
            raw_bytes: packet,
            next_extension: ExtensionType::from(packet[1]),
            index: HEADER_SIZE,
        };
        assert(extension_type_byte(extension_type_of_byte(packet@[1])) == packet@[1]);
        it
    }

    /// Whether `after` is this iterator after one call of `next` that returned `r`: the first
    /// remaining extension is yielded and dropped, or `None` where none remains.
    pub open spec fn stepped(self, after: Self, r: Option<Extension>) -> bool {
        &&& self.remaining().len() == 0 ==> r is None && after.remaining() == self.remaining()
        &&& self.remaining().len() > 0 ==> (r matches Some(e) && e@ == self.remaining()[0])
            && after.remaining() =~= self.remaining().drop_first()
    }

    /// Yields the next extension, or `None` once every one was yielded.
    pub fn next(&mut self) -> (r: Option<Extension>)
        ensures
            old(self).stepped(*final(self), r),
            old(self).remaining().len() == 0 ==> r is None && final(self).remaining() == old(self).remaining(),
            old(self).remaining().len() > 0 ==> (r matches Some(e) && e@ == old(self).remaining()[0])
                && final(self).remaining() == old(self).remaining().drop_first(),
    {
        proof {
            use_type_invariant(&*self);
        }
        let ghost b = self.raw_bytes@;
        let ghost kind = extension_type_byte(self.next_extension);
        if self.next_extension == ExtensionType::NoExtension {
            None
        } else if self.index < self.raw_bytes.len() {
            let len = self.raw_bytes[self.index + 1] as usize;
            let extension_start = self.index + 2;
            let extension_end = extension_start + len;

            // The extension is valid because the bytes are those of a valid packet
            let extension = Extension::new(
                self.next_extension,
                slice_to_vec(&self.raw_bytes[extension_start..extension_end]),
            );
            let ghost idx = self.index as int;
            assert(extension_type_byte(extension_type_of_byte(b[idx])) == b[idx]);
            self.next_extension = ExtensionType::from(self.raw_bytes[self.index]);
            self.index = self.index + len + 2;
            proof {
                let rest = parse_extensions(b, idx + 2 + len, b[idx]);
                assert(rest is Ok);
                assert(extensions_from(b, idx, kind) =~= seq![extension@] + extensions_from(b, idx + 2 + len, b[idx]));
            }
            Some(extension)
        } else {
            None
        }
    }
}

/// A run of calls of `next` on an iterator made by `new(packet)` yields the extensions that
/// decoding `packet` gives, in order, and `None` on every call after the last one.
pub proof fn law_extension_iterator_run<'a>(
    packet: Seq<u8>,
    its: Seq<ExtensionIterator<'a>>,
    rs: Seq<Option<Extension>>,
)
    requires
        decode_packet(packet) is Ok,
        its.len() == rs.len() + 1,
        its[0].remaining() == decode_packet(packet)->Ok_0.extensions,
        forall|i: int| 0 <= i < rs.len() ==> #[trigger] its[i].stepped(its[i + 1], rs[i]),
    ensures
        forall|i: int| 0 <= i < rs.len() ==> {
            let exts = decode_packet(packet)->Ok_0.extensions;
            &&& i < exts.len() ==> (#[trigger] rs[i] matches Some(e) && e@ == exts[i])
            &&& i >= exts.len() ==> rs[i] is None
        },
{
    let exts = decode_packet(packet)->Ok_0.extensions;
    assert forall|i: int| 0 <= i < rs.len() implies {
        &&& i < exts.len() ==> (#[trigger] rs[i] matches Some(e) && e@ == exts[i])
        &&& i >= exts.len() ==> rs[i] is None
    } by {
        lemma_extension_run_at(exts, its, rs, i);
        assert(its[i].stepped(its[i + 1], rs[i]));
    }
}

proof fn lemma_extension_run_at<'a>(
    exts: Seq<ExtensionModel>,
    its: Seq<ExtensionIterator<'a>>,
    rs: Seq<Option<Extension>>,
    i: int,
)
    requires
        its.len() == rs.len() + 1,
        its[0].remaining() == exts,
        forall|k: int| 0 <= k < rs.len() ==> #[trigger] its[k].stepped(its[k + 1], rs[k]),
        0 <= i < its.len(),
    ensures
        its[i].remaining() == exts.subrange(
            if i < exts.len() { i } else { exts.len() as int },
            exts.len() as int,
        ),
    decreases i,
{
    let n = exts.len() as int;
    if i == 0 {
        assert(exts.subrange(0, n) =~= exts);
    } else {
        lemma_extension_run_at(exts, its, rs, i - 1);
        let k = i - 1;
        assert(its[k].stepped(its[k + 1], rs[k]));
        if k < n {
            assert(exts.subrange(k, n).drop_first() =~= exts.subrange(k + 1, n));
        }
    }
}

} // verus!
