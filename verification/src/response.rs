//! Response formatting: the status line and body of one HTTP response,
//! laid out as `HTTP/1.1 <code> <reason>\r\n\r\n<body>`. Writing the
//! formatted message to an output sink is the caller's business.

use vstd::prelude::*;

use vstd::string::StringExecFns;

verus! {

/// The status of a response: an enumerable code with a decimal numeral
/// and a textual reason phrase.
#[derive(Debug, Clone, Copy, PartialEq, Eq, Structural)]
pub enum StatusCode {
    Okay,
    BadRequest,
    NotFound,
}

impl StatusCode {
    /// The decimal numeral of the code, as it stands in a status line.
    pub open spec fn spec_code_text(self) -> Seq<char> {
        match self {
            StatusCode::Okay => "200"@,
            StatusCode::BadRequest => "400"@,
            StatusCode::NotFound => "404"@,
        }
    }

    /// The textual reason phrase belonging to the code.
    pub open spec fn spec_reason_phrase(self) -> Seq<char> {
        match self {
            StatusCode::Okay => "OK"@,
            StatusCode::BadRequest => "Bad Request"@,
            StatusCode::NotFound => "Not Found"@,
        }
    }

    /// The decimal numeral of the code.
    pub fn code_text(&self) -> (r: &'static str)
        ensures
            r@ == self.spec_code_text(),
    {
        match self {
            StatusCode::Okay => "200",
            StatusCode::BadRequest => "400",
            StatusCode::NotFound => "404",
        }
    }

    /// The textual reason phrase belonging to the code.
    pub fn reason_phrase(&self) -> (r: &'static str)
        ensures
            r@ == self.spec_reason_phrase(),
    {
        match self {
            StatusCode::Okay => "OK",
            StatusCode::BadRequest => "Bad Request",
            StatusCode::NotFound => "Not Found",
        }
    }
}

/// One response: a status code and an optional body.
#[derive(Debug)]
pub struct Response {
    pub status_code: StatusCode,
    pub body: Option<String>,
}

impl Response {
    /// The body text; an absent body reads as empty.
    pub open spec fn spec_body(self) -> Seq<char> {
        match self.body {
            Some(b) => b@,
            None => Seq::<char>::empty(),
        }
    }

    /// The full message: the status line, the blank line separating
    /// headers from body, and the body.
    pub open spec fn spec_message(self) -> Seq<char> {
        "HTTP/1.1 "@ + self.status_code.spec_code_text() + " "@
            + self.status_code.spec_reason_phrase() + "\r\n\r\n"@ + self.spec_body()
    }

    pub fn new(status_code: StatusCode, body: Option<String>) -> (r: Response)
        ensures
            r.status_code == status_code,
            r.body == body,
    {
        Response { status_code, body }
    }

    /// Lays the response out as one message, ready to be written to an
    /// output sink.
    pub fn format_message(&self) -> (r: String)
        ensures
            r@ == self.spec_message(),
    {
        let mut out = "HTTP/1.1 ".to_owned();
        out.append(self.status_code.code_text());
        out.append(" ");
        out.append(self.status_code.reason_phrase());
        out.append("\r\n\r\n");
        if let Some(b) = &self.body {
            out.append(b.as_str());
        }
        proof {
            assert(out@ =~= self.spec_message());
        }
        out
    }
}

} // verus!
