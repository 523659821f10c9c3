use vstd::prelude::*;

verus! {

/// One source's review record for a strain, exactly as a source extractor
/// produced it.
///
/// Ratings reach the library as text on the source's own scale; they are
/// carried in thousandths of a rating point (`rating_milli == 4500` means a
/// rating of 4.5) so that weighted averages stay exact integer arithmetic.
pub struct Listing {
    /// Identifier of the source that produced the record (e.g. "Allbud").
    pub source: String,
    /// Strain name as extracted; not necessarily normalized.
    pub strain: String,
    /// Locator of the original page; empty when none is available.
    pub url: String,
    /// Rating on the source's own scale, in thousandths of a point.
    pub rating_milli: u32,
    /// Number of reviews behind the rating; the weight used in averaging.
    pub ratings: u32,
}

/// Mathematical view of a [`Listing`].
pub struct ListingView {
    pub source: Seq<char>,
    pub strain: Seq<char>,
    pub url: Seq<char>,
    pub rating_milli: u32,
    pub ratings: u32,
}

impl View for Listing {
    type V = ListingView;

    open spec fn view(&self) -> ListingView {
        ListingView {
            source: self.source@,
            strain: self.strain@,
            url: self.url@,
            rating_milli: self.rating_milli,
            ratings: self.ratings,
        }
    }
}

impl Clone for Listing {
    fn clone(&self) -> (r: Self)
        ensures
            r@ == self@,
    {
        Listing {
            source: self.source.clone(),
            strain: self.strain.clone(),
            url: self.url.clone(),
            rating_milli: self.rating_milli,
            ratings: self.ratings,
        }
    }
}

} // verus!
