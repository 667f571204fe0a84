use super::ContentType;
use vstd::prelude::*;

verus! {

/// The media type that names `ct`.
pub open spec fn media_type(ct: ContentType) -> Seq<char> {
    match ct {
        ContentType::HTML => "text/html"@,
        ContentType::JS => "text/javascript"@,
        ContentType::JSON => "application/json"@,
        ContentType::CSS => "text/css"@,
        ContentType::ICO => "image/vnd.microsoft.icon"@,
        ContentType::PLAIN => "text/plain"@,
    }
}

impl ContentType {
    /// The media type of this content type, such as `text/html`.
    pub fn to_str(&self) -> (r: &str)
        ensures
            r@ == media_type(*self),
    {
        let string = match self {
            ContentType::HTML => "text/html",
            ContentType::JS => "text/javascript",
            ContentType::JSON => "application/json",
            ContentType::CSS => "text/css",
            ContentType::ICO => "image/vnd.microsoft.icon",
            ContentType::PLAIN => "text/plain",
        };
        string
    }

    /// The header line that declares this content type.
    pub fn to_header(&self) -> (r: String)
        ensures
            r@ == "Content-Type: "@ + media_type(*self),
    {
        let mut header = "Content-Type: ".to_owned();
        header.append(self.to_str());
        header
    }
}

/// Each content type goes with its registered media type.
pub proof fn lemma_media_types()
    ensures
        media_type(ContentType::HTML) == "text/html"@,
        media_type(ContentType::JS) == "text/javascript"@,
        media_type(ContentType::JSON) == "application/json"@,
        media_type(ContentType::CSS) == "text/css"@,
        media_type(ContentType::ICO) == "image/vnd.microsoft.icon"@,
        media_type(ContentType::PLAIN) == "text/plain"@,
{
}

} // verus!
