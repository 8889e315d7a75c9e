use vstd::prelude::*;

verus! {

/// The keys of a bucket gathered page by page, and the continuation token
/// of the last page that asked for more.
pub struct Listing {
    keys: Vec<String>,
    token: Option<String>,
}

/// What to do after a page of the listing was taken in.
#[derive(Debug)]
pub enum ListingStep {
    /// Ask for the next page, starting at this continuation token.
    Fetch { continuation: String },
    /// The listing is exhaustive.
    Done,
}

/// Why a listing cannot go on.
#[derive(Debug)]
pub enum ListingError {
    /// A page said more keys follow but gave no token to fetch them.
    MissingToken,
    /// A page handed back the same token as the page before it, so the next
    /// request would fetch the same page again.
    RepeatedToken,
}

/// The view of an optional string.
pub open spec fn token_view(t: Option<String>) -> Option<Seq<char>> {
    match t {
        Some(s) => Some(s@),
        None => None,
    }
}

impl Listing {
    /// The keys gathered so far, in listing order.
    pub closed spec fn keys_view(&self) -> Seq<Seq<char>> {
        self.keys.deep_view()
    }

    /// The continuation token of the last page that asked for more.
    pub closed spec fn token_view(&self) -> Option<Seq<char>> {
        token_view(self.token)
    }

    /// A listing before its first page: the first request carries no token.
    pub fn new() -> (r: Listing)
        ensures
            r.keys_view() == Seq::<Seq<char>>::empty(),
            r.token_view() is None,
    {
        let r = Listing { keys: Vec::new(), token: None };
        assert(r.keys.deep_view() =~= Seq::<Seq<char>>::empty());
        r
    }

    /// Takes in one page of the listing: its keys, whether the bucket holds
    /// more, and the token to ask for them with. The keys are kept in every
    /// case. When more keys follow, the next request is to start at the new
    /// token, which must be present and differ from the previous one.
    pub fn take_page(&mut self, page: Vec<String>, truncated: bool, next: Option<String>) -> (r:
        Result<ListingStep, ListingError>)
        ensures
            final(self).keys_view() == old(self).keys_view() + page.deep_view(),
            !truncated ==> r is Ok && r->Ok_0 is Done && final(self).token_view()
                == old(self).token_view(),
            truncated && next is None ==> r is Err && r->Err_0 is MissingToken
                && final(self).token_view() == old(self).token_view(),
            truncated && next is Some && old(self).token_view() == token_view(next) ==> r is Err
                && r->Err_0 is RepeatedToken && final(self).token_view() == old(self).token_view(),
            truncated && next is Some && old(self).token_view() != token_view(next) ==> r is Ok
                && r->Ok_0 is Fetch && r->Ok_0->continuation@ == next->0@
                && final(self).token_view() == token_view(next),
    {
        let ghost before = self.keys.deep_view();
        let mut i: usize = 0;
        while i < page.len()
            invariant
                i <= page.len(),
                self.keys.deep_view() == before + page.deep_view().subrange(0, i as int),
                self.token == old(self).token,
            decreases page.len() - i,
        {
            let ghost prev = self.keys.deep_view();
            self.keys.push(page[i].clone());
            assert(self.keys.deep_view() =~= prev.push(page@[i as int]@));
            assert(page.deep_view().subrange(0, i as int + 1) =~= page.deep_view().subrange(
                0,
                i as int,
            ).push(page@[i as int]@));
            i = i + 1;
        }
        assert(page.deep_view().subrange(0, page.len() as int) =~= page.deep_view());
        if !truncated {
            return Ok(ListingStep::Done);
        }
        match next {
            None => Err(ListingError::MissingToken),
            Some(t) => {
                let repeated = match &self.token {
                    Some(prev) => *prev == t,
                    None => false,
                };
                if repeated {
                    Err(ListingError::RepeatedToken)
                } else {
                    let continuation = t.clone();
                    self.token = Some(t);
                    Ok(ListingStep::Fetch { continuation })
                }
            },
        }
    }

    /// Ends the listing and hands out the keys gathered.
    pub fn into_keys(self) -> (r: Vec<String>)
        ensures
            r.deep_view() == self.keys_view(),
    {
        self.keys
    }
}

} // verus!
