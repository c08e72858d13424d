//! Domains: a span split into a partial first element, a run of whole
//! elements and a partial last element.

use vstd::prelude::*;
use vstd::arithmetic::div_mod::*;
use crate::index::{BitError, BitIdx, lemma_width_positive};
use crate::ptr::{BitSpan, bytes_of, elem_bytes};
use crate::store::BitStore;

verus! {

/// Some of the bits of one element: those with the indices `first ..= last`.
pub struct PartialElement<T: BitStore> {
    pub address: usize,
    pub first: BitIdx<T>,
    pub last: BitIdx<T>,
}

/// A run of `count` elements, all of whose bits are live, starting at
/// `address`.
pub struct WholeElements {
    pub address: usize,
    pub count: usize,
}

/// The shape of a span in memory.
pub enum Domain<T: BitStore> {
    /// The span lies inside one element and does not fill it.
    Enclave(PartialElement<T>),
    /// The span fills whole elements, with a partial element before them, or
    /// after them, or both, or neither.
    Region { head: Option<PartialElement<T>>, body: WholeElements, tail: Option<PartialElement<T>> },
}

impl<T: BitStore> PartialElement<T> {
    /// The bit address of the first live bit.
    pub open spec fn first_bit(self) -> nat {
        8 * (self.address as nat) + self.first@
    }

    /// The bit address one past the last live bit.
    pub open spec fn end_bit(self) -> nat {
        8 * (self.address as nat) + self.last@ + 1
    }

    /// The part names an aligned element and a range of indices in it that
    /// is not empty.
    pub open spec fn wf(self) -> bool {
        &&& self.address as nat % elem_bytes::<T>() == 0
        &&& self.first.wf()
        &&& self.last.wf()
        &&& self.first@ <= self.last@
    }

    /// The bit addresses of the live bits, in order.
    pub open spec fn positions(self) -> Seq<nat> {
        Seq::new(
            (self.last@ + 1 - self.first@) as nat,
            |i: int| (8 * self.address + self.first@ + i) as nat,
        )
    }
}

impl WholeElements {
    /// The bit address of the first bit of the run.
    pub open spec fn first_bit(self) -> nat {
        8 * (self.address as nat)
    }

    /// The bit address one past the last bit of the run, for elements that
    /// are `width` bits wide.
    pub open spec fn end_bit(self, width: nat) -> nat {
        8 * (self.address as nat) + self.count as nat * width
    }

    /// The bit addresses of the bits of the run, in order, for elements that
    /// are `width` bits wide.
    pub open spec fn positions(self, width: nat) -> Seq<nat> {
        Seq::new(self.count as nat * width, |i: int| (8 * self.address + i) as nat)
    }
}

/// The bit addresses of an optional partial element.
pub open spec fn edge_positions<T: BitStore>(edge: Option<PartialElement<T>>) -> Seq<nat> {
    match edge {
        Some(part) => part.positions(),
        None => Seq::empty(),
    }
}

impl<T: BitStore> Domain<T> {
    /// The bit addresses that the domain covers: head, then body, then tail.
    pub open spec fn positions(self) -> Seq<nat> {
        match self {
            Domain::Enclave(part) => part.positions(),
            Domain::Region { head, body, tail } => edge_positions(head) + body.positions(T::bits())
                + edge_positions(tail),
        }
    }
}

/// Whether the last element that holds a bit of the span has an address.
pub open spec fn addressable<T: BitStore>(span: BitSpan<T>) -> bool {
    span.spec_length() == 0 || span.spec_address() + (span.spec_elements() - 1) * elem_bytes::<
        T,
    >() <= usize::MAX
}

/// The domain of a span.
///
/// An empty span is a region without any part. A span that lies in one
/// element is an enclave, unless it is the whole element: that is a region
/// with a body of one element. Any other span is a region; it has a head if
/// it does not start at index 0, and a tail if it does not end with the last
/// bit of an element.
pub open spec fn domain_of<T: BitStore>(span: BitSpan<T>) -> Domain<T> {
    let w = T::bits() as int;
    let b = elem_bytes::<T>() as int;
    let addr = span.spec_address() as int;
    let head = span.spec_start_index()@ as int;
    let end = head + span.spec_length();
    if span.spec_length() == 0 {
        Domain::Region {
            head: None,
            body: WholeElements { address: span.spec_address(), count: 0 },
            tail: None,
        }
    } else if end <= w && !(head == 0 && end == w) {
        Domain::Enclave(
            PartialElement {
                address: span.spec_address(),
                first: span.spec_start_index(),
                last: BitIdx::spec_new((end - 1) as nat),
            },
        )
    } else {
        let skip = if head == 0 {
            0int
        } else {
            1int
        };
        let whole = end / w;
        let rest = end % w;
        Domain::Region {
            head: if head == 0 {
                None
            } else {
                Some(
                    PartialElement {
                        address: span.spec_address(),
                        first: span.spec_start_index(),
                        last: BitIdx::spec_new((w - 1) as nat),
                    },
                )
            },
            body: WholeElements {
                address: (addr + skip * b) as usize,
                count: (whole - skip) as usize,
            },
            tail: if rest == 0 {
                None
            } else {
                Some(
                    PartialElement {
                        address: (addr + whole * b) as usize,
                        first: BitIdx::spec_new(0),
                        last: BitIdx::spec_new((rest - 1) as nat),
                    },
                )
            },
        }
    }
}

/// The parts of a domain, put together in order, are the bits of the span:
/// none is missing and none comes twice.
pub proof fn lemma_domain_reconstructs<T: BitStore>(span: BitSpan<T>)
    requires
        span.wf(),
        addressable(span),
    ensures
        domain_of(span).positions() == span.positions(),
{
    lemma_width_positive::<T>();
    let w = T::bits() as int;
    let b = elem_bytes::<T>() as int;
    let addr = span.spec_address() as int;
    let head = span.spec_start_index()@ as int;
    let len = span.spec_length() as int;
    let end = head + len;
    assert(w == 8 * b);
    if len == 0 {
        assert(domain_of(span).positions() =~= span.positions());
    } else if end <= w && !(head == 0 && end == w) {
        BitIdx::<T>::lemma_spec_new((end - 1) as nat);
        assert(domain_of(span).positions() =~= span.positions());
    } else {
        let skip = if head == 0 {
            0int
        } else {
            1int
        };
        let whole = end / w;
        let rest = end % w;
        lemma_fundamental_div_mod(end, w);
        lemma_mod_bound(end, w);
        lemma_elements(span);
        assert(whole >= 1) by {
            if whole <= 0 {
                assert(w * whole <= 0) by (nonlinear_arith)
                    requires
                        whole <= 0,
                        w > 0,
                ;
            }
        }
        assert(8 * (skip * b) == skip * w) by (nonlinear_arith)
            requires
                w == 8 * b,
        ;
        assert(8 * (whole * b) == w * whole) by (nonlinear_arith)
            requires
                w == 8 * b,
        ;
        assert((whole - skip) * w == w * whole - skip * w) by (nonlinear_arith);
        assert(0 <= skip * b <= whole * b) by (nonlinear_arith)
            requires
                0 <= skip <= whole,
                b > 0,
        ;
        BitIdx::<T>::lemma_spec_new((w - 1) as nat);
        BitIdx::<T>::lemma_spec_new(0);
        if rest != 0 {
            BitIdx::<T>::lemma_spec_new((rest - 1) as nat);
        }
        let n = span.spec_elements() as int;
        assert(skip * b <= (n - 1) * b) by (nonlinear_arith)
            requires
                0 <= skip <= n - 1,
                b > 0,
        ;
        if rest != 0 {
            assert(whole * b == (n - 1) * b);
        }
        let d = domain_of(span);
        let hp = edge_positions(d->head);
        let bp = d->body.positions(T::bits());
        let tp = edge_positions(d->tail);
        assert(d->body.address == addr + skip * b);
        assert(d->body.count == whole - skip);
        assert(hp.len() == skip * w - head);
        assert(bp.len() == w * whole - skip * w) by {
            assert((whole - skip) * w == w * whole - skip * w);
        }
        assert(tp.len() == rest);
        assert forall|i: int| 0 <= i < len implies #[trigger] d.positions()[i] == span.positions()[i] by {
            if i < hp.len() {
                assert(d.positions()[i] == hp[i]);
            } else if i < hp.len() + bp.len() {
                assert(d.positions()[i] == bp[i - hp.len()]);
            } else {
                assert(d.positions()[i] == tp[i - hp.len() - bp.len()]);
            }
        }
        assert(d.positions().len() == len);
        assert(d.positions() =~= span.positions());
    }
}

/// Where the parts of a domain lie: each part starts where the part before it
/// ends, the first starts with the span and the last ends with it.
pub proof fn lemma_domain_layout<T: BitStore>(span: BitSpan<T>)
    requires
        span.wf(),
        addressable(span),
    ensures
        match domain_of(span) {
            Domain::Enclave(part) => {
                &&& part.wf()
                &&& part.first_bit() == span.first_bit()
                &&& part.end_bit() == span.end_bit()
            },
            Domain::Region { head, body, tail } => {
                let body_first = match head {
                    Some(part) => part.end_bit(),
                    None => span.first_bit(),
                };
                let body_end = match tail {
                    Some(part) => part.first_bit(),
                    None => span.end_bit(),
                };
                &&& head matches Some(part) ==> part.wf() && part.first_bit() == span.first_bit()
                    && part.last@ == T::bits() - 1
                &&& tail matches Some(part) ==> part.wf() && part.end_bit() == span.end_bit()
                    && part.first@ == 0
                &&& body.address as nat % elem_bytes::<T>() == 0
                &&& span.spec_length() > 0 ==> body.first_bit() == body_first
                &&& body_first + body.count * T::bits() == body_end
            },
        },
{
    lemma_width_positive::<T>();
    let w = T::bits() as int;
    let b = elem_bytes::<T>() as int;
    let addr = span.spec_address() as int;
    let head = span.spec_start_index()@ as int;
    let len = span.spec_length() as int;
    let end = head + len;
    assert(w == 8 * b);
    if len == 0 {
    } else if end <= w && !(head == 0 && end == w) {
        BitIdx::<T>::lemma_spec_new((end - 1) as nat);
    } else {
        let skip = if head == 0 {
            0int
        } else {
            1int
        };
        let whole = end / w;
        let rest = end % w;
        lemma_fundamental_div_mod(end, w);
        lemma_mod_bound(end, w);
        lemma_elements(span);
        assert(whole >= 1) by {
            if whole <= 0 {
                assert(w * whole <= 0) by (nonlinear_arith)
                    requires
                        whole <= 0,
                        w > 0,
                ;
            }
        }
        assert(8 * (skip * b) == skip * w) by (nonlinear_arith)
            requires
                w == 8 * b,
        ;
        assert(8 * (whole * b) == w * whole) by (nonlinear_arith)
            requires
                w == 8 * b,
        ;
        assert((whole - skip) * w == w * whole - skip * w) by (nonlinear_arith);
        let n = span.spec_elements() as int;
        assert(0 <= skip * b <= (n - 1) * b) by (nonlinear_arith)
            requires
                0 <= skip <= n - 1,
                b > 0,
        ;
        assert(0 <= whole * b) by (nonlinear_arith)
            requires
                0 <= whole,
                b > 0,
        ;
        if rest != 0 {
            assert(whole * b == (n - 1) * b);
        }
        BitIdx::<T>::lemma_spec_new((w - 1) as nat);
        BitIdx::<T>::lemma_spec_new(0);
        if rest != 0 {
            BitIdx::<T>::lemma_spec_new((rest - 1) as nat);
        }
        lemma_mod_multiples_vanish(skip, addr, b);
        lemma_mod_multiples_vanish(whole, addr, b);
        assert(b * skip == skip * b) by (nonlinear_arith);
        assert(b * whole == whole * b) by (nonlinear_arith);
    }
}

/// How many elements a span touches, and where the last of them is.
pub proof fn lemma_elements<T: BitStore>(span: BitSpan<T>)
    requires
        span.wf(),
        span.spec_length() > 0,
    ensures
        span.spec_elements() >= 1,
        ({
            let w = T::bits() as int;
            let end = span.spec_start_index()@ + span.spec_length();
            span.spec_elements() == end / w + (if end % w == 0 {
                0int
            } else {
                1int
            })
        }),
{
    lemma_width_positive::<T>();
    let w = T::bits() as int;
    let end = span.spec_start_index()@ + span.spec_length();
    lemma_fundamental_div_mod(end, w);
    lemma_mod_bound(end, w);
    let q = end / w;
    let r = end % w;
    if r == 0 {
        assert(end + w - 1 == w * q + (w - 1));
        lemma_fundamental_div_mod_converse(end + w - 1, w, q, w - 1);
    } else {
        assert(end + w - 1 == (q + 1) * w + (r - 1)) by (nonlinear_arith)
            requires
                end == w * q + r,
        ;
        lemma_fundamental_div_mod_converse(end + w - 1, w, q + 1, r - 1);
    }
    if q <= 0 {
        assert(w * q <= 0) by (nonlinear_arith)
            requires
                q <= 0,
                w > 0,
        ;
    }
}

impl<T: BitStore> BitSpan<T> {
    /// Splits the span into its domain.
    ///
    /// The split is refused when the span reaches past the end of the address
    /// space, so that one of its elements has no address.
    pub fn domain(&self) -> (r: Result<Domain<T>, BitError>)
        ensures
            match r {
                Ok(d) => addressable(*self) && d == domain_of(*self),
                Err(e) => e == BitError::Overflow && !addressable(*self),
            },
    {
        proof {
            use_type_invariant(self);
            lemma_width_positive::<T>();
        }
        let w: usize = T::width() as usize;
        let bytes: usize = bytes_of::<T>();
        let addr: usize = self.address();
        let first: BitIdx<T> = self.start_index();
        let head: usize = first.into_inner() as usize;
        let len: usize = self.length();
        if len == 0 {
            return Ok(
                Domain::Region {
                    head: None,
                    body: WholeElements { address: addr, count: 0 },
                    tail: None,
                },
            );
        }
        let end: usize = head + len;
        if end <= w && !(head == 0 && end == w) {
            let top: u8 = (end - 1) as u8;
            proof {
                BitIdx::<T>::lemma_spec_new((end - 1) as nat);
                assert(top == end - 1);
                assert(top < T::bits());
            }
            let last: BitIdx<T> = BitIdx::in_range(top);
            let part: PartialElement<T> = PartialElement { address: addr, first, last };
            proof {
                last.lemma_view_injective(BitIdx::<T>::spec_new((end - 1) as nat));
                assert(domain_of(*self) == Domain::Enclave(part));
            }
            return Ok(Domain::Enclave(part));
        }
        let whole: usize = end / w;
        let rest: usize = end % w;
        let skip: usize = if head == 0 {
            0
        } else {
            1
        };
        let count: usize = self.elements();
        proof {
            lemma_elements(*self);
            lemma_fundamental_div_mod(end as int, w as int);
            assert(whole >= 1) by {
                if whole == 0 {
                    assert(w * whole == 0) by (nonlinear_arith)
                        requires
                            whole == 0,
                    ;
                }
            }
            assert((count - 1) * bytes <= (count - 1) * 8) by (nonlinear_arith)
                requires
                    count >= 1,
                    bytes <= 8,
            ;
            assert(skip * bytes <= (count - 1) * bytes) by (nonlinear_arith)
                requires
                    0 <= skip <= count - 1,
                    bytes > 0,
            ;
            assert(whole * bytes <= count * bytes) by (nonlinear_arith)
                requires
                    0 <= whole <= count,
                    bytes > 0,
            ;
            assert(count * bytes == (count - 1) * bytes + bytes) by (nonlinear_arith);
            BitIdx::<T>::lemma_spec_new((w - 1) as nat);
            BitIdx::<T>::lemma_spec_new(0);
            if rest != 0 {
                BitIdx::<T>::lemma_spec_new((rest - 1) as nat);
            }
        }
        let reach: u128 = addr as u128 + (count as u128 - 1) * bytes as u128;
        if reach > usize::MAX as u128 {
            return Err(BitError::Overflow);
        }
        let head_part: Option<PartialElement<T>> = if head == 0 {
            None
        } else {
            let last: BitIdx<T> = BitIdx::<T>::max();
            proof {
                last.lemma_view_injective(BitIdx::<T>::spec_new((w - 1) as nat));
            }
            Some(PartialElement { address: addr, first, last })
        };
        let body: WholeElements = WholeElements {
            address: addr + skip * bytes,
            count: whole - skip,
        };
        let tail_part: Option<PartialElement<T>> = if rest == 0 {
            None
        } else {
            let zero: BitIdx<T> = BitIdx::<T>::min();
            proof {
                zero.lemma_view_injective(BitIdx::<T>::spec_new(0));
            }
            let last: BitIdx<T> = BitIdx::in_range((rest - 1) as u8);
            proof {
                last.lemma_view_injective(BitIdx::<T>::spec_new((rest - 1) as nat));
            }
            Some(PartialElement { address: addr + whole * bytes, first: zero, last })
        };
        Ok(Domain::Region { head: head_part, body, tail: tail_part })
    }
}

} // verus!
