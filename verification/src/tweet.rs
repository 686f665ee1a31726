use vstd::prelude::*;

verus! {

/// One decoded post: a language tag and a text body.
pub struct Tweet {
    pub lang: String,
    pub text: String,
}

impl View for Tweet {
    type V = (Seq<char>, Seq<char>);

    open spec fn view(&self) -> (Seq<char>, Seq<char>) {
        (self.lang@, self.text@)
    }
}

/// The language/text projection of a sequence of posts, as contracts speak of it.
pub open spec fn tweets_view(ts: Seq<Tweet>) -> Seq<(Seq<char>, Seq<char>)> {
    ts.map_values(|t: Tweet| (t.lang@, t.text@))
}

} // verus!
