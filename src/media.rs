//! Media types held as plain strings, and the outside tables and parsers
//! that the negotiation consults.
use vstd::prelude::*;

verus! {

/// A parsed media type: type, subtype, optional structured-syntax suffix,
/// and parameters in the order written.
#[derive(Debug, Clone)]
pub struct MediaType {
    pub ty: String,
    pub subty: String,
    pub suffix: Option<String>,
    pub params: Vec<(String, String)>,
}

/// The mathematical form of a media type.
pub type MediaTypeView = (Seq<char>, Seq<char>, Option<Seq<char>>, Seq<(Seq<char>, Seq<char>)>);

pub open spec fn opt_view(o: Option<String>) -> Option<Seq<char>> {
    match o {
        Some(s) => Some(s@),
        None => None,
    }
}

pub open spec fn param_view(p: (String, String)) -> (Seq<char>, Seq<char>) {
    (p.0@, p.1@)
}

impl View for MediaType {
    type V = MediaTypeView;

    open spec fn view(&self) -> MediaTypeView {
        (self.ty@, self.subty@, opt_view(self.suffix), self.params@.map_values(|p: (String, String)| param_view(p)))
    }
}

/// What `mediatype::MediaType::parse` makes of a string, if it accepts it.
pub uninterp spec fn media_type_parse(s: Seq<char>) -> Option<
    (Seq<char>, Seq<char>, Option<Seq<char>>, Seq<(Seq<char>, Seq<char>)>),
>;

/// Which of the `available` media types (written as text, in the server's
/// order of preference) `headers_accept::Accept::negotiate` picks for an
/// `accept` header; none where the header does not parse.
pub uninterp spec fn accept_choice(accept: Seq<char>, available: Seq<Seq<char>>) -> Option<int>;

/// The extension that `mime2ext::mime2ext` gives a media type.
pub uninterp spec fn mime_extension(mime: Seq<char>) -> Option<Seq<char>>;

/// The first media type that `new_mime_guess::from_ext` lists for an
/// extension.
pub uninterp spec fn guessed_media_type(ext: Seq<char>) -> Option<Seq<char>>;

/// Relies on `mediatype::MediaType::parse`: the parts of the media type, or
/// none when the text is not one; the outcome depends on the text alone.
#[verifier::external_body]
pub(crate) fn parse_media_type(s: &str) -> (r: Option<MediaType>)
    ensures
        match r {
            Some(m) => media_type_parse(s@) == Some(m@),
            None => media_type_parse(s@) is None,
        },
{
    match mediatype::MediaType::parse(s) {
        Ok(m) => Some(MediaType {
            ty: m.ty.as_str().to_string(),
            subty: m.subty.as_str().to_string(),
            suffix: m.suffix.map(|x| x.as_str().to_string()),
            params: m.params.iter().map(|(n, v)| (n.as_str().to_string(), v.as_str().to_string())).collect(),
        }),
        Err(_) => None,
    }
}

/// Relies on `mime2ext::mime2ext`: the extension that its static table
/// gives a media type, if any.
#[verifier::external_body]
pub(crate) fn extension_for_mime(mime: &str) -> (r: Option<String>)
    ensures
        opt_view(r) == mime_extension(mime@),
{
    mime2ext::mime2ext(mime).map(|e| e.to_string())
}

/// Relies on `new_mime_guess::from_ext` and `MimeGuess::first_raw`: the
/// first media type that its static table lists for an extension.
#[verifier::external_body]
pub(crate) fn guess_for_extension(ext: &str) -> (r: Option<String>)
    ensures
        opt_view(r) == guessed_media_type(ext@),
{
    new_mime_guess::from_ext(ext).first_raw().map(|m| m.to_string())
}

/// The views of a list of strings.
pub open spec fn strings_view(v: Seq<String>) -> Seq<Seq<char>> {
    v.map_values(|s: String| s@)
}

/// Relies on `headers_accept::Accept` (parsed with `FromStr`) and its
/// `negotiate`, over the `available` types parsed by
/// `mediatype::MediaType::parse`: `negotiate` returns one of the items that
/// it is given, reported here by position.
#[verifier::external_body]
pub(crate) fn negotiate_accept(accept: &str, available: &Vec<String>) -> (r: Option<usize>)
    ensures
        match r {
            Some(i) => i < available@.len() && accept_choice(accept@, strings_view(available@))
                == Some(i as int),
            None => accept_choice(accept@, strings_view(available@)) is None,
        },
{
    let accept = <headers_accept::Accept as std::str::FromStr>::from_str(accept).ok()?;
    let parsed = available
        .iter()
        .map(|s| mediatype::MediaType::parse(s))
        .collect::<Result<Vec<_>, _>>()
        .ok()?;
    let chosen = accept.negotiate(parsed.iter())?;
    parsed.iter().position(|m| std::ptr::eq(m, chosen))
}

/// `type/subtype`, with `+suffix` where there is one.
pub open spec fn essence_text(m: MediaTypeView) -> Seq<char> {
    m.0 + seq!['/'] + m.1 + match m.2 {
        Some(x) => seq!['+'] + x,
        None => Seq::empty(),
    }
}

/// The parameters as `; name=value` each, in order.
pub open spec fn params_text(p: Seq<(Seq<char>, Seq<char>)>) -> Seq<char>
    decreases p.len(),
{
    if p.len() == 0 {
        Seq::empty()
    } else {
        params_text(p.drop_last()) + seq![';', ' '] + p.last().0 + seq!['='] + p.last().1
    }
}

/// A media type as text: its essence followed by its parameters.
pub open spec fn media_type_text(m: MediaTypeView) -> Seq<char> {
    essence_text(m) + params_text(m.3)
}

/// The sentinel media type for bytes of no specific type.
pub open spec fn generic_media_type() -> MediaTypeView {
    (seq!['a', 'p', 'p', 'l', 'i', 'c', 'a', 't', 'i', 'o', 'n'], seq!['o', 'c', 't', 'e', 't', '-', 's', 't', 'r', 'e', 'a', 'm'], None, Seq::empty())
}

/// The sentinel extension that goes with the sentinel media type.
pub open spec fn generic_ext() -> Seq<char> {
    seq!['o', 'c', 't', 'e', 't', '-', 's', 't', 'r', 'e', 'a', 'm']
}

/// Whether two strings hold the same characters.
pub fn same_text(a: &str, b: &str) -> (r: bool)
    ensures
        r == (a@ == b@),
{
    let n = a.unicode_len();
    if n != b.unicode_len() {
        return false;
    }
    let mut i: usize = 0;
    while i < n
        invariant
            n == a@.len() == b@.len(),
            i <= n,
            forall|k: int| 0 <= k < i ==> a@[k] == b@[k],
        decreases n - i,
    {
        if a.get_char(i) != b.get_char(i) {
            return false;
        }
        i = i + 1;
    }
    assert(a@ =~= b@);
    true
}

impl MediaType {
    /// `application/octet-stream`.
    pub fn generic() -> (r: MediaType)
        ensures
            r@ == generic_media_type(),
    {
        proof {
            reveal_strlit("application");
            reveal_strlit("octet-stream");
        }
        let r = MediaType {
            ty: String::from_str("application"),
            subty: String::from_str("octet-stream"),
            suffix: None,
            params: Vec::new(),
        };
        assert(r@.3 =~= Seq::<(Seq<char>, Seq<char>)>::empty());
        r
    }

    /// Parses a media type; none where `mediatype` refuses the text.
    pub fn parse(s: &str) -> (r: Option<MediaType>)
        ensures
            match r {
                Some(m) => media_type_parse(s@) == Some(m@),
                None => media_type_parse(s@) is None,
            },
    {
        parse_media_type(s)
    }

    /// The media type without its parameters, as text.
    pub fn essence(&self) -> (r: String)
        ensures
            r@ == essence_text(self@),
    {
        proof {
            reveal_strlit("/");
            reveal_strlit("+");
        }
        let s = self.ty.clone().concat("/").concat(self.subty.as_str());
        match &self.suffix {
            Some(x) => s.concat("+").concat(x.as_str()),
            None => s,
        }
    }

    /// The media type with its parameters, as text.
    pub fn to_text(&self) -> (r: String)
        ensures
            r@ == media_type_text(self@),
    {
        proof {
            reveal_strlit("; ");
            reveal_strlit("=");
        }
        let mut s = self.essence();
        let mut i: usize = 0;
        while i < self.params.len()
            invariant
                i <= self.params@.len(),
                s@ == essence_text(self@) + params_text(self@.3.subrange(0, i as int)),
            decreases self.params.len() - i,
        {
            let p = &self.params[i];
            let ghost sub = self@.3.subrange(0, i + 1);
            assert(sub.drop_last() =~= self@.3.subrange(0, i as int));
            assert(sub.last() == (p.0@, p.1@));
            proof {
                reveal_strlit("; ");
                reveal_strlit("=");
            }
            s = s.concat("; ").concat(p.0.as_str()).concat("=").concat(p.1.as_str());
            assert(params_text(sub) == params_text(self@.3.subrange(0, i as int)) + seq![';', ' ']
                + p.0@ + seq!['='] + p.1@);
            assert(s@ =~= essence_text(self@) + params_text(sub));
            i = i + 1;
        }
        assert(self@.3.subrange(0, i as int) =~= self@.3);
        s
    }

    /// Whether two media types have the same parts.
    pub fn same_as(&self, other: &MediaType) -> (r: bool)
        ensures
            r == (self@ == other@),
    {
        if !same_text(self.ty.as_str(), other.ty.as_str()) || !same_text(self.subty.as_str(), other.subty.as_str()) {
            return false;
        }
        match (&self.suffix, &other.suffix) {
            (Some(a), Some(b)) => {
                if !same_text(a.as_str(), b.as_str()) {
                    return false;
                }
            },
            (None, None) => {},
            _ => {
                return false;
            },
        }
        let n = self.params.len();
        assert(self@.3.len() == self.params@.len() && other@.3.len() == other.params@.len());
        if n != other.params.len() {
            return false;
        }
        let mut i: usize = 0;
        while i < n
            invariant
                n == self@.3.len() == other@.3.len(),
                i <= n,
                forall|k: int| 0 <= k < i ==> self@.3[k] == other@.3[k],
            decreases n - i,
        {
            let a = &self.params[i];
            let b = &other.params[i];
            if !same_text(a.0.as_str(), b.0.as_str()) || !same_text(a.1.as_str(), b.1.as_str()) {
                assert(self@.3[i as int] != other@.3[i as int]);
                return false;
            }
            i = i + 1;
        }
        assert(self@.3 =~= other@.3);
        true
    }
}

} // verus!
