//! A small message vocabulary with a hand-written, fully verified codec:
//! the shape a user of the library gives its own message types.

use crate::errors::CodecError;
use crate::message::Message;
use vstd::bytes::{
    lemma_auto_spec_u32_to_from_le_bytes, spec_u32_from_le_bytes, spec_u32_to_le_bytes,
    u32_from_le_bytes, u32_to_le_bytes,
};
use vstd::prelude::*;
use vstd::slice::{slice_index_get, slice_subrange};

verus! {

/// A sample message: a unit tag, a number, or a list of small integers.
#[derive(Debug, Clone, PartialEq, Eq)]
pub enum SampleMsg {
    A,
    B(u32),
    C(Vec<i8>),
}

/// The abstract content of a [`SampleMsg`].
pub enum SampleMsgView {
    A,
    B(u32),
    C(Seq<i8>),
}

impl View for SampleMsg {
    type V = SampleMsgView;

    open spec fn view(&self) -> SampleMsgView {
        match self {
            SampleMsg::A => SampleMsgView::A,
            SampleMsg::B(x) => SampleMsgView::B(*x),
            SampleMsg::C(v) => SampleMsgView::C(v@),
        }
    }
}

/// The payload bytes of a list body: each element as one byte.
pub open spec fn list_body(s: Seq<i8>) -> Seq<u8> {
    s.map_values(|b: i8| b as u8)
}

impl Message for SampleMsg {
    /// One tag byte, then the variant's body: nothing for `A`, the number
    /// in four little-endian bytes for `B`, a 4-byte little-endian count
    /// followed by one byte per element for `C`.
    open spec fn enc_of(v: SampleMsgView) -> Seq<u8> {
        match v {
            SampleMsgView::A => seq![0u8],
            SampleMsgView::B(x) => seq![1u8] + spec_u32_to_le_bytes(x),
            SampleMsgView::C(s) => seq![2u8] + spec_u32_to_le_bytes(s.len() as u32) + list_body(s),
        }
    }

    open spec fn enc_ok_of(v: SampleMsgView) -> bool {
        match v {
            SampleMsgView::C(s) => s.len() <= u32::MAX,
            _ => true,
        }
    }

    proof fn enc_injective(a: SampleMsgView, b: SampleMsgView) {
        lemma_auto_spec_u32_to_from_le_bytes();
        let ea = Self::enc_of(a);
        let eb = Self::enc_of(b);
        match (a, b) {
            (SampleMsgView::A, SampleMsgView::A) => {},
            (SampleMsgView::B(x), SampleMsgView::B(y)) => {
                assert(ea.subrange(1, 5) =~= spec_u32_to_le_bytes(x));
                assert(eb.subrange(1, 5) =~= spec_u32_to_le_bytes(y));
                assert(spec_u32_from_le_bytes(spec_u32_to_le_bytes(x)) == x);
                assert(spec_u32_from_le_bytes(spec_u32_to_le_bytes(y)) == y);
            },
            (SampleMsgView::C(s), SampleMsgView::C(t)) => {
                assert(ea.len() == 5 + s.len());
                assert(eb.len() == 5 + t.len());
                assert(ea.skip(5) =~= list_body(s));
                assert(eb.skip(5) =~= list_body(t));
                assert forall|i: int| 0 <= i < s.len() implies s[i] == t[i] by {
                    assert(list_body(s)[i] == list_body(t)[i]);
                    let p = s[i];
                    let q = t[i];
                    assert(p as u8 == q as u8 ==> p == q) by (bit_vector);
                };
                assert(s =~= t);
            },
            _ => {
                assert(ea[0] == eb[0]);
            },
        }
    }

    fn encode(&self) -> (res: Result<Vec<u8>, CodecError>) {
        match self {
            SampleMsg::A => {
                let mut out: Vec<u8> = Vec::new();
                out.push(0u8);
                proof {
                    assert(out@ =~= Self::enc_of(self@));
                }
                Ok(out)
            },
            SampleMsg::B(x) => {
                let mut out: Vec<u8> = Vec::new();
                out.push(1u8);
                let mut tail = u32_to_le_bytes(*x);
                out.append(&mut tail);
                proof {
                    assert(out@ =~= Self::enc_of(self@));
                }
                Ok(out)
            },
            SampleMsg::C(data) => {
                if data.len() > u32::MAX as usize {
                    return Err(CodecError);
                }
                let mut out: Vec<u8> = Vec::new();
                out.push(2u8);
                let mut tail = u32_to_le_bytes(data.len() as u32);
                out.append(&mut tail);
                let ghost base = out@;
                let mut i: usize = 0;
                while i < data.len()
                    invariant
                        i <= data@.len(),
                        base == seq![2u8] + spec_u32_to_le_bytes(data@.len() as u32),
                        out@ == base + list_body(data@.take(i as int)),
                    decreases data@.len() - i,
                {
                    let byte = data[i];
                    out.push(byte as u8);
                    proof {
                        assert(list_body(data@.take(i + 1)) =~= list_body(
                            data@.take(i as int),
                        ).push(data@[i as int] as u8));
                        assert(out@ =~= base + list_body(data@.take(i + 1)));
                    }
                    i = i + 1;
                }
                proof {
                    assert(data@.take(data@.len() as int) =~= data@);
                    assert(out@ =~= Self::enc_of(self@));
                }
                Ok(out)
            },
        }
    }

    fn decode(bytes: &[u8]) -> (res: Result<Self, CodecError>) {
        proof {
            lemma_auto_spec_u32_to_from_le_bytes();
        }
        if bytes.len() == 0 {
            proof {
                assert forall|v: SampleMsgView|
                    (#[trigger] Self::enc_of(v)) != bytes@ || !Self::enc_ok_of(v) by {
                    assert(Self::enc_of(v).len() >= 1);
                };
            }
            return Err(CodecError);
        }
        let tag = *slice_index_get(bytes, 0);
        if tag == 0 {
            if bytes.len() == 1 {
                proof {
                    assert(bytes@ =~= Self::enc_of(SampleMsgView::A));
                }
                Ok(SampleMsg::A)
            } else {
                proof {
                    assert forall|v: SampleMsgView|
                        (#[trigger] Self::enc_of(v)) != bytes@ || !Self::enc_ok_of(v) by {
                        if Self::enc_of(v) == bytes@ {
                            match v {
                                SampleMsgView::A => {
                                    assert(bytes@.len() == 1);
                                },
                                SampleMsgView::B(_) => {
                                    assert(bytes@[0] == 1);
                                },
                                SampleMsgView::C(_) => {
                                    assert(bytes@[0] == 2);
                                },
                            }
                        }
                    };
                }
                Err(CodecError)
            }
        } else if tag == 1 {
            if bytes.len() == 5 {
                let x = u32_from_le_bytes(slice_subrange(bytes, 1, 5));
                proof {
                    assert(spec_u32_to_le_bytes(x) =~= bytes@.subrange(1, 5));
                    assert(bytes@ =~= Self::enc_of(SampleMsgView::B(x)));
                }
                Ok(SampleMsg::B(x))
            } else {
                proof {
                    assert forall|v: SampleMsgView|
                        (#[trigger] Self::enc_of(v)) != bytes@ || !Self::enc_ok_of(v) by {
                        if Self::enc_of(v) == bytes@ {
                            match v {
                                SampleMsgView::A => {
                                    assert(bytes@[0] == 0);
                                },
                                SampleMsgView::B(_) => {
                                    assert(bytes@.len() == 5);
                                },
                                SampleMsgView::C(_) => {
                                    assert(bytes@[0] == 2);
                                },
                            }
                        }
                    };
                }
                Err(CodecError)
            }
        } else if tag == 2 {
            if bytes.len() < 5 {
                proof {
                    assert forall|v: SampleMsgView|
                        (#[trigger] Self::enc_of(v)) != bytes@ || !Self::enc_ok_of(v) by {
                        if Self::enc_ok_of(v) && Self::enc_of(v) == bytes@ {
                            match v {
                                SampleMsgView::A => {
                                    assert(bytes@[0] == 0);
                                },
                                SampleMsgView::B(_) => {
                                    assert(bytes@[0] == 1);
                                },
                                SampleMsgView::C(s) => {
                                    assert(bytes@.len() == 5 + s.len());
                                },
                            }
                        }
                    };
                }
                return Err(CodecError);
            }
            let n = u32_from_le_bytes(slice_subrange(bytes, 1, 5));
            let body_len = bytes.len() - 5;
            if body_len != n as usize {
                proof {
                    assert forall|v: SampleMsgView|
                        (#[trigger] Self::enc_of(v)) != bytes@ || !Self::enc_ok_of(v) by {
                        if Self::enc_ok_of(v) && Self::enc_of(v) == bytes@ {
                            match v {
                                SampleMsgView::A => {
                                    assert(bytes@[0] == 0);
                                },
                                SampleMsgView::B(_) => {
                                    assert(bytes@.len() == 5);
                                    assert(bytes@[0] == 1);
                                },
                                SampleMsgView::C(s) => {
                                    assert(bytes@.len() == 5 + s.len());
                                    assert(spec_u32_to_le_bytes(s.len() as u32) =~= bytes@.subrange(
                                        1,
                                        5,
                                    ));
                                    assert(s.len() as u32 == n);
                                },
                            }
                        }
                    };
                }
                return Err(CodecError);
            }
            let mut data: Vec<i8> = Vec::new();
            let mut i: usize = 0;
            while i < body_len
                invariant
                    i <= body_len,
                    bytes@.len() <= usize::MAX,
                    body_len == bytes@.len() - 5,
                    data@.len() == i,
                    list_body(data@) == bytes@.subrange(5, 5 + i as int),
                decreases body_len - i,
            {
                let byte = *slice_index_get(bytes, 5 + i);
                data.push(#[verifier::truncate] (byte as i8));
                proof {
                    assert((byte as i8) as u8 == byte) by (bit_vector);
                    assert(list_body(data@) =~= bytes@.subrange(5, 5 + i + 1));
                }
                i = i + 1;
            }
            proof {
                assert(list_body(data@) == bytes@.subrange(5, bytes@.len() as int));
                assert(spec_u32_to_le_bytes(data@.len() as u32) =~= bytes@.subrange(1, 5));
                assert(bytes@ =~= Self::enc_of(SampleMsgView::C(data@)));
            }
            Ok(SampleMsg::C(data))
        } else {
            proof {
                assert forall|v: SampleMsgView|
                    (#[trigger] Self::enc_of(v)) != bytes@ || !Self::enc_ok_of(v) by {
                    if Self::enc_of(v) == bytes@ {
                        match v {
                            SampleMsgView::A => {
                                assert(bytes@[0] == 0);
                            },
                            SampleMsgView::B(_) => {
                                assert(bytes@[0] == 1);
                            },
                            SampleMsgView::C(_) => {
                                assert(bytes@[0] == 2);
                            },
                        }
                    }
                };
            }
            Err(CodecError)
        }
    }
}

} // verus!
