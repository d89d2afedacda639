use vstd::prelude::*;

verus! {

/// A chat message as the chat component keeps it.
#[derive(Clone, Debug)]
pub struct Message {
    pub id: String,
    pub text: String,
    pub sender: String,
}

/// A marker drawn on a vector point by the image editor: its id and the path
/// that draws it.
#[derive(Clone, Debug)]
pub struct PointMarker {
    pub id: String,
    pub path_data: String,
}

} // verus!
