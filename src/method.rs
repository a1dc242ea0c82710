use vstd::prelude::*;

use crate::dendrogram::{Dendrogram, Step};
use crate::update::clamp_u64;

verus! {

/// The floor of the square root of `x`: the `r` with `r * r <= x < (r + 1) * (r + 1)`.
pub open spec fn is_isqrt(x: int, r: int) -> bool {
    0 <= r && r * r <= x < (r + 1) * (r + 1)
}

/// The floor of the square root of `x`.
pub fn isqrt(x: u64) -> (r: u64)
    ensures
        is_isqrt(x as int, r as int),
{
    let mut lo: u64 = 0;
    let mut hi: u64 = 0x1_0000_0000;
    assert(hi * hi > x) by (nonlinear_arith)
        requires hi == 0x1_0000_0000, x <= 0xffff_ffff_ffff_ffff;
    while hi - lo > 1
        invariant
            lo < hi <= 0x1_0000_0000,
            lo * lo <= x,
            hi * hi > x,
        decreases hi - lo,
    {
        let mid = lo + (hi - lo) / 2;
        assert(mid * mid <= 0x1_0000_0000 * 0x1_0000_0000) by (nonlinear_arith)
            requires mid < 0x1_0000_0000;
        if (mid as u128) * (mid as u128) <= x as u128 {
            lo = mid;
        } else {
            hi = mid;
        }
    }
    lo
}

/// The floor square root is monotone.
pub proof fn lemma_isqrt_monotone(x: int, rx: int, y: int, ry: int)
    requires
        is_isqrt(x, rx),
        is_isqrt(y, ry),
        x <= y,
    ensures
        rx <= ry,
{
    if rx > ry {
        assert(rx * rx >= (ry + 1) * (ry + 1)) by (nonlinear_arith)
            requires rx >= ry + 1, ry >= 0;
    }
}

/// The matrix that `method` clusters: the entries squared (up to
/// `u64::MAX`) for the methods that work on squares, as given otherwise.
pub open spec fn prepared(method: Method, dis: Seq<u64>) -> Seq<u64> {
    Seq::new(dis.len(), |i: int| if method.spec_on_squares() { clamp_u64(dis[i] * dis[i]) } else { dis[i] })
}

/// The steps are in non-decreasing order of dissimilarity.
pub open spec fn sorted_by_dissimilarity(steps: Seq<Step>) -> bool {
    forall|i: int, j: int| 0 <= i < j < steps.len() ==> steps[i].dissimilarity <= steps[j].dissimilarity
}

/// An error.
#[derive(Clone, Debug)]
pub enum Error {
    /// This error occurs when attempting to parse a method string that
    /// doesn't correspond to a valid method.
    InvalidMethod(String),
}

impl Error {
    /// A human readable description of this error.
    pub fn message(&self) -> (r: String)
    {
        match self {
            Error::InvalidMethod(name) => {
                let mut m = String::from_str("unrecognized method name: '");
                m.append(name.as_str());
                m.append("'");
                m
            }
        }
    }
}

/// A method for computing the dissimilarities between clusters.
///
/// When clusters `A` and `B` merge into `AB`, the method dictates how the
/// dissimilarity between `AB` and every other cluster `X` is computed from
/// `d(A, X)`, `d(B, X)`, `d(A, B)` and the cluster sizes.
#[derive(Clone, Copy, Debug, PartialEq, Eq, Structural)]
pub enum Method {
    /// `min(d(A, X), d(B, X))`
    Single,
    /// `max(d(A, X), d(B, X))`
    Complete,
    /// `(|A| d(A, X) + |B| d(B, X)) / (|A| + |B|)`
    Average,
    /// `(d(A, X) + d(B, X)) / 2`
    Weighted,
    /// Ward's minimum variance criterion, on squared dissimilarities.
    Ward,
    /// Distance between centroids, on squared dissimilarities.
    Centroid,
    /// Distance between weighted centroids, on squared dissimilarities.
    Median,
}

/// The subset of methods that the nearest-neighbor chain algorithm supports:
/// those whose merges never produce inversions.
#[derive(Clone, Copy, Debug, PartialEq, Eq, Structural)]
pub enum MethodChain {
    /// See `Method::Single`.
    Single,
    /// See `Method::Complete`.
    Complete,
    /// See `Method::Average`.
    Average,
    /// See `Method::Weighted`.
    Weighted,
    /// See `Method::Ward`.
    Ward,
}

/// The method tags of the foreign-function surface, in tag order.
#[allow(non_camel_case_types)]
#[derive(Clone, Copy, Debug, PartialEq, Eq, Structural)]
pub enum kodama_method {
    /// See `Method::Single`.
    Single,
    /// See `Method::Complete`.
    Complete,
    /// See `Method::Average`.
    Average,
    /// See `Method::Weighted`.
    Weighted,
    /// See `Method::Ward`.
    Ward,
    /// See `Method::Centroid`.
    Centroid,
    /// See `Method::Median`.
    Median,
}

impl Method {
    /// True for the methods whose dendrogram is sorted by dissimilarity
    /// before labelling: all but centroid and median, which may invert.
    pub open spec fn spec_requires_sorting(self) -> bool {
        !(self is Centroid || self is Median)
    }

    /// True for the methods whose update formula works on squared
    /// dissimilarities.
    pub open spec fn spec_on_squares(self) -> bool {
        self is Ward || self is Centroid || self is Median
    }

    /// The chain method of the same name, for the methods that have one.
    pub open spec fn spec_chain(self) -> Option<MethodChain> {
        match self {
            Method::Single => Some(MethodChain::Single),
            Method::Complete => Some(MethodChain::Complete),
            Method::Average => Some(MethodChain::Average),
            Method::Weighted => Some(MethodChain::Weighted),
            Method::Ward => Some(MethodChain::Ward),
            Method::Centroid => None,
            Method::Median => None,
        }
    }

    /// Convert this linkage method into a nearest neighbor chain method, or
    /// `None` for centroid and median.
    pub fn into_method_chain(self) -> (r: Option<MethodChain>)
        ensures
            r == self.spec_chain(),
    {
        match self {
            Method::Single => Some(MethodChain::Single),
            Method::Complete => Some(MethodChain::Complete),
            Method::Average => Some(MethodChain::Average),
            Method::Weighted => Some(MethodChain::Weighted),
            Method::Ward => Some(MethodChain::Ward),
            Method::Centroid | Method::Median => None,
        }
    }

    /// Returns true if and only if the dendrogram should be sorted before
    /// generating cluster labels.
    pub fn requires_sorting(&self) -> (r: bool)
        ensures
            r == self.spec_requires_sorting(),
    {
        match *self {
            Method::Centroid | Method::Median => false,
            _ => true,
        }
    }

    /// Return true if and only if this method computes dissimilarities on
    /// squares.
    pub fn on_squares(&self) -> (r: bool)
        ensures
            r == self.spec_on_squares(),
    {
        match *self {
            Method::Ward | Method::Centroid | Method::Median => true,
            _ => false,
        }
    }
}

impl Method {
    /// Square the given matrix entry-wise if and only if this method works
    /// on squares; a square above `u64::MAX` becomes `u64::MAX`.
    pub fn square(&self, condensed_matrix: &mut Vec<u64>)
        ensures
            final(condensed_matrix)@.len() == old(condensed_matrix)@.len(),
            final(condensed_matrix)@ == prepared(*self, old(condensed_matrix)@),
            forall|i: int| 0 <= i < old(condensed_matrix)@.len() ==> #[trigger] final(condensed_matrix)@[i]
                == if self.spec_on_squares() {
                    clamp_u64(old(condensed_matrix)@[i] * old(condensed_matrix)@[i])
                } else {
                    old(condensed_matrix)@[i]
                },
    {
        if self.on_squares() {
            let mut i: usize = 0;
            while i < condensed_matrix.len()
                invariant
                    i <= condensed_matrix@.len(),
                    condensed_matrix@.len() == old(condensed_matrix)@.len(),
                    forall|k: int| 0 <= k < i ==> #[trigger] condensed_matrix@[k]
                        == clamp_u64(old(condensed_matrix)@[k] * old(condensed_matrix)@[k]),
                    forall|k: int| i <= k < condensed_matrix@.len() ==> #[trigger] condensed_matrix@[k]
                        == old(condensed_matrix)@[k],
                decreases condensed_matrix@.len() - i,
            {
                let x = condensed_matrix[i] as u128;
                assert(x * x <= 0xffff_ffff_ffff_ffff * 0xffff_ffff_ffff_ffff) by (nonlinear_arith)
                    requires x <= 0xffff_ffff_ffff_ffff;
                let sq = x * x;
                let v: u64 = if sq > u64::MAX as u128 { u64::MAX } else { sq as u64 };
                condensed_matrix.set(i, v);
                i = i + 1;
            }
        }
        assert(condensed_matrix@ =~= prepared(*self, old(condensed_matrix)@));
    }

    /// Take the floor square root of each step's dissimilarity if and only
    /// if this method works on squares.
    pub fn sqrt(&self, dend: &mut Dendrogram)
        ensures
            final(dend).spec_observations() == old(dend).spec_observations(),
            final(dend).spec_steps().len() == old(dend).spec_steps().len(),
            forall|i: int| 0 <= i < old(dend).spec_steps().len() ==> {
                let s = #[trigger] final(dend).spec_steps()[i];
                let t = old(dend).spec_steps()[i];
                &&& s.cluster1 == t.cluster1
                &&& s.cluster2 == t.cluster2
                &&& s.size == t.size
                &&& if self.spec_on_squares() {
                    is_isqrt(t.dissimilarity as int, s.dissimilarity as int)
                } else {
                    s.dissimilarity == t.dissimilarity
                }
            },
            sorted_by_dissimilarity(old(dend).spec_steps()) ==> sorted_by_dissimilarity(final(dend).spec_steps()),
    {
        if self.on_squares() {
            let mut i: usize = 0;
            while i < dend.len()
                invariant
                    i <= dend.spec_steps().len(),
                    self.spec_on_squares(),
                    dend.spec_steps().len() == old(dend).spec_steps().len(),
                    dend.spec_observations() == old(dend).spec_observations(),
                    forall|k: int| 0 <= k < i ==> {
                        let s = #[trigger] dend.spec_steps()[k];
                        let t = old(dend).spec_steps()[k];
                        &&& s.cluster1 == t.cluster1
                        &&& s.cluster2 == t.cluster2
                        &&& s.size == t.size
                        &&& is_isqrt(t.dissimilarity as int, s.dissimilarity as int)
                    },
                    forall|k: int| i <= k < dend.spec_steps().len() ==> #[trigger] dend.spec_steps()[k]
                        == old(dend).spec_steps()[k],
                decreases dend.spec_steps().len() - i,
            {
                let mut step = dend.step(i);
                step.dissimilarity = isqrt(step.dissimilarity);
                dend.set_step(i, step);
                i = i + 1;
            }
            proof {
                if sorted_by_dissimilarity(old(dend).spec_steps()) {
                    assert forall|i: int, j: int| 0 <= i < j < dend.spec_steps().len() implies
                        dend.spec_steps()[i].dissimilarity <= dend.spec_steps()[j].dissimilarity by {
                        let si = dend.spec_steps()[i];
                        let sj = dend.spec_steps()[j];
                        lemma_isqrt_monotone(
                            old(dend).spec_steps()[i].dissimilarity as int,
                            si.dissimilarity as int,
                            old(dend).spec_steps()[j].dissimilarity as int,
                            sj.dissimilarity as int,
                        );
                    }
                }
            }
        } else {
            assert forall|i: int| 0 <= i < old(dend).spec_steps().len() implies {
                let s = #[trigger] dend.spec_steps()[i];
                let t = old(dend).spec_steps()[i];
                &&& s.cluster1 == t.cluster1
                &&& s.cluster2 == t.cluster2
                &&& s.size == t.size
                &&& s.dissimilarity == t.dissimilarity
            } by {}
        }
    }
}

impl MethodChain {
    /// The general method of the same name.
    pub open spec fn spec_method(self) -> Method {
        match self {
            MethodChain::Single => Method::Single,
            MethodChain::Complete => Method::Complete,
            MethodChain::Average => Method::Average,
            MethodChain::Weighted => Method::Weighted,
            MethodChain::Ward => Method::Ward,
        }
    }

    /// Convert this `nnchain` linkage method into a general purpose linkage
    /// method.
    pub fn into_method(self) -> (r: Method)
        ensures
            r == self.spec_method(),
            r.spec_chain() == Some(self),
    {
        match self {
            MethodChain::Single => Method::Single,
            MethodChain::Complete => Method::Complete,
            MethodChain::Average => Method::Average,
            MethodChain::Weighted => Method::Weighted,
            MethodChain::Ward => Method::Ward,
        }
    }
}

impl MethodChain {
    /// Square the given matrix entry-wise if and only if this method works
    /// on squares.
    pub fn square(&self, condensed_matrix: &mut Vec<u64>)
        ensures
            final(condensed_matrix)@.len() == old(condensed_matrix)@.len(),
            final(condensed_matrix)@ == prepared(self.spec_method(), old(condensed_matrix)@),
    {
        self.into_method().square(condensed_matrix);
    }

    /// Take the floor square root of each step's dissimilarity if and only
    /// if this method works on squares.
    pub fn sqrt(&self, dend: &mut Dendrogram)
        ensures
            final(dend).spec_observations() == old(dend).spec_observations(),
            final(dend).spec_steps().len() == old(dend).spec_steps().len(),
            forall|i: int| 0 <= i < old(dend).spec_steps().len() ==> {
                let s = #[trigger] final(dend).spec_steps()[i];
                let t = old(dend).spec_steps()[i];
                &&& s.cluster1 == t.cluster1
                &&& s.cluster2 == t.cluster2
                &&& s.size == t.size
                &&& if self.spec_method().spec_on_squares() {
                    is_isqrt(t.dissimilarity as int, s.dissimilarity as int)
                } else {
                    s.dissimilarity == t.dissimilarity
                }
            },
            sorted_by_dissimilarity(old(dend).spec_steps()) ==> sorted_by_dissimilarity(final(dend).spec_steps()),
    {
        self.into_method().sqrt(dend);
    }
}

impl kodama_method {
    /// The method that this tag stands for.
    pub open spec fn spec_method(self) -> Method {
        match self {
            kodama_method::Single => Method::Single,
            kodama_method::Complete => Method::Complete,
            kodama_method::Average => Method::Average,
            kodama_method::Weighted => Method::Weighted,
            kodama_method::Ward => Method::Ward,
            kodama_method::Centroid => Method::Centroid,
            kodama_method::Median => Method::Median,
        }
    }

    /// Convert this tag into a linkage method.
    pub fn into_method(self) -> (r: Method)
        ensures
            r == self.spec_method(),
    {
        match self {
            kodama_method::Single => Method::Single,
            kodama_method::Complete => Method::Complete,
            kodama_method::Average => Method::Average,
            kodama_method::Weighted => Method::Weighted,
            kodama_method::Ward => Method::Ward,
            kodama_method::Centroid => Method::Centroid,
            kodama_method::Median => Method::Median,
        }
    }
}

/// The method that a name stands for, if any.
pub open spec fn spec_method_named(s: Seq<char>) -> Option<Method> {
    if s == "single"@ {
        Some(Method::Single)
    } else if s == "complete"@ {
        Some(Method::Complete)
    } else if s == "average"@ {
        Some(Method::Average)
    } else if s == "weighted"@ {
        Some(Method::Weighted)
    } else if s == "ward"@ {
        Some(Method::Ward)
    } else if s == "centroid"@ {
        Some(Method::Centroid)
    } else if s == "median"@ {
        Some(Method::Median)
    } else {
        None
    }
}

fn same_text(s: &String, word: &str) -> (r: bool)
    ensures
        r == (s@ == word@),
{
    let w = word.to_owned();
    *s == w
}

/// Parse a method from its lower-case name.
pub fn method_from_name(s: &str) -> (r: Result<Method, Error>)
    ensures
        spec_method_named(s@) matches Some(m) ==> r == Ok::<Method, Error>(m),
        spec_method_named(s@) is None ==> (r matches Err(Error::InvalidMethod(n)) && n@ == s@),
{
    let t = s.to_owned();
    if same_text(&t, "single") {
        Ok(Method::Single)
    } else if same_text(&t, "complete") {
        Ok(Method::Complete)
    } else if same_text(&t, "average") {
        Ok(Method::Average)
    } else if same_text(&t, "weighted") {
        Ok(Method::Weighted)
    } else if same_text(&t, "ward") {
        Ok(Method::Ward)
    } else if same_text(&t, "centroid") {
        Ok(Method::Centroid)
    } else if same_text(&t, "median") {
        Ok(Method::Median)
    } else {
        Err(Error::InvalidMethod(t))
    }
}

/// The chain method that a name stands for, if any.
pub open spec fn spec_chain_named(s: Seq<char>) -> Option<MethodChain> {
    match spec_method_named(s) {
        Some(m) => m.spec_chain(),
        None => None,
    }
}

/// Parse a chain method from its lower-case name: the names of
/// `method_from_name` but centroid and median.
pub fn method_chain_from_name(s: &str) -> (r: Result<MethodChain, Error>)
    ensures
        spec_chain_named(s@) is Some ==> r == Ok::<MethodChain, Error>(spec_chain_named(s@).unwrap()),
        spec_chain_named(s@) is None ==> (r matches Err(Error::InvalidMethod(n)) && n@ == s@),
{
    match method_from_name(s) {
        Ok(m) => match m.into_method_chain() {
            Some(c) => Ok(c),
            None => Err(Error::InvalidMethod(s.to_owned())),
        },
        Err(e) => Err(e),
    }
}

impl std::str::FromStr for Method {
    type Err = Error;

    fn from_str(s: &str) -> Result<Method, Error> {
        method_from_name(s)
    }
}

impl std::str::FromStr for MethodChain {
    type Err = Error;

    fn from_str(s: &str) -> Result<MethodChain, Error> {
        method_chain_from_name(s)
    }
}

} // verus!
