//! What an edit of a file comes to.

use vstd::prelude::*;

verus! {

/// The file as it is to be written, and what to tell of it.
#[derive(Debug)]
pub struct Edit {
    pub content: String,
    pub summary: String,
}

/// An edit, or why there is none, in texts.
pub open spec fn edit_model(r: Result<Edit, String>) -> Result<(Seq<char>, Seq<char>), Seq<char>> {
    match r {
        Ok(e) => Ok((e.content@, e.summary@)),
        Err(why) => Err(why@),
    }
}

/// An answer, or why there is none, in texts.
pub open spec fn answer_model(r: Result<String, String>) -> Result<Seq<char>, Seq<char>> {
    match r {
        Ok(a) => Ok(a@),
        Err(why) => Err(why@),
    }
}

} // verus!
