//! Upstream error type.

use vstd::prelude::*;

verus! {

/// Errors that can occur talking to an upstream resolver.
#[derive(Debug)]
pub enum UpstreamError {
    Timeout,
    /// The upstream answered with a response code that is no answer.
    Rcode(String),
    Io(String),
    Proto(String),
    Tls(String),
    Quic(String),
    Http(String),
    Bootstrap(String),
    NoUpstreams,
    AllFailed(Box<UpstreamError>),
    InvalidSpec(String),
}

/// What an [`UpstreamError`] says.
pub enum ErrorView {
    Timeout,
    Rcode(Seq<char>),
    Io(Seq<char>),
    Proto(Seq<char>),
    Tls(Seq<char>),
    Quic(Seq<char>),
    Http(Seq<char>),
    Bootstrap(Seq<char>),
    NoUpstreams,
    AllFailed(Box<ErrorView>),
    InvalidSpec(Seq<char>),
}

pub open spec fn error_view(e: UpstreamError) -> ErrorView
    decreases e,
{
    match e {
        UpstreamError::Timeout => ErrorView::Timeout,
        UpstreamError::Rcode(s) => ErrorView::Rcode(s@),
        UpstreamError::Io(s) => ErrorView::Io(s@),
        UpstreamError::Proto(s) => ErrorView::Proto(s@),
        UpstreamError::Tls(s) => ErrorView::Tls(s@),
        UpstreamError::Quic(s) => ErrorView::Quic(s@),
        UpstreamError::Http(s) => ErrorView::Http(s@),
        UpstreamError::Bootstrap(s) => ErrorView::Bootstrap(s@),
        UpstreamError::NoUpstreams => ErrorView::NoUpstreams,
        UpstreamError::AllFailed(last) => ErrorView::AllFailed(Box::new(error_view(*last))),
        UpstreamError::InvalidSpec(s) => ErrorView::InvalidSpec(s@),
    }
}

impl View for UpstreamError {
    type V = ErrorView;

    open spec fn view(&self) -> ErrorView {
        error_view(*self)
    }
}

/// An error in words.
pub open spec fn error_text(e: ErrorView) -> Seq<char>
    decreases e,
{
    match e {
        ErrorView::Timeout => "timed out"@,
        ErrorView::Rcode(s) => s,
        ErrorView::Io(s) => "i/o error: "@ + s,
        ErrorView::Proto(s) => "dns protocol error: "@ + s,
        ErrorView::Tls(s) => "tls error: "@ + s,
        ErrorView::Quic(s) => "quic error: "@ + s,
        ErrorView::Http(s) => "http error: "@ + s,
        ErrorView::Bootstrap(s) => "bootstrap failed to resolve "@ + s,
        ErrorView::NoUpstreams => "no upstreams configured"@,
        ErrorView::AllFailed(last) => "all upstreams failed; last error: "@ + error_text(*last),
        ErrorView::InvalidSpec(s) => "invalid upstream spec: "@ + s,
    }
}

impl UpstreamError {
    /// The error in words.
    pub fn message(&self) -> (r: String)
        ensures
            r@ == error_text(self@),
        decreases self,
    {
        match self {
            UpstreamError::Timeout => "timed out".to_owned(),
            UpstreamError::Rcode(s) => s.as_str().to_owned(),
            UpstreamError::Io(s) => "i/o error: ".to_owned().concat(s.as_str()),
            UpstreamError::Proto(s) => "dns protocol error: ".to_owned().concat(s.as_str()),
            UpstreamError::Tls(s) => "tls error: ".to_owned().concat(s.as_str()),
            UpstreamError::Quic(s) => "quic error: ".to_owned().concat(s.as_str()),
            UpstreamError::Http(s) => "http error: ".to_owned().concat(s.as_str()),
            UpstreamError::Bootstrap(s) => "bootstrap failed to resolve ".to_owned().concat(
                s.as_str(),
            ),
            UpstreamError::NoUpstreams => "no upstreams configured".to_owned(),
            UpstreamError::AllFailed(last) => {
                let inner: String = (**last).message();
                "all upstreams failed; last error: ".to_owned().concat(inner.as_str())
            },
            UpstreamError::InvalidSpec(s) => "invalid upstream spec: ".to_owned().concat(
                s.as_str(),
            ),
        }
    }

    /// Another error that says the same.
    pub fn copied(&self) -> (r: UpstreamError)
        ensures
            r@ == self@,
        decreases self,
    {
        match self {
            UpstreamError::Timeout => UpstreamError::Timeout,
            UpstreamError::Rcode(s) => UpstreamError::Rcode(s.as_str().to_owned()),
            UpstreamError::Io(s) => UpstreamError::Io(s.as_str().to_owned()),
            UpstreamError::Proto(s) => UpstreamError::Proto(s.as_str().to_owned()),
            UpstreamError::Tls(s) => UpstreamError::Tls(s.as_str().to_owned()),
            UpstreamError::Quic(s) => UpstreamError::Quic(s.as_str().to_owned()),
            UpstreamError::Http(s) => UpstreamError::Http(s.as_str().to_owned()),
            UpstreamError::Bootstrap(s) => UpstreamError::Bootstrap(s.as_str().to_owned()),
            UpstreamError::NoUpstreams => UpstreamError::NoUpstreams,
            UpstreamError::AllFailed(last) => UpstreamError::AllFailed(
                Box::new((**last).copied()),
            ),
            UpstreamError::InvalidSpec(s) => UpstreamError::InvalidSpec(s.as_str().to_owned()),
        }
    }
}

} // verus!
