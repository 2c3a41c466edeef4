//! What is said to an Icecast server before the stream begins.
//!
//! The stream is pushed to the server over one connection that is opened
//! with a `SOURCE` request. This module builds the request; opening the
//! connection and sending is the caller's part.

use vstd::prelude::*;
use vstd::string::StringExecFns;
use vstd::utf8::*;

verus! {

/// The port of an Icecast server, unless the URL names another.
pub const DEFAULT_PORT: u16 = 8000;

/// What the `url` crate reads out of a URL.
pub struct UrlParts {
    pub scheme: String,
    /// The host, if it is a domain name.
    pub domain: Option<String>,
    pub port: Option<u16>,
    pub path: String,
    /// Empty if the URL names no user.
    pub username: String,
    pub password: Option<String>,
}

/// What a string that may be there holds.
pub open spec fn opt_text(text: Option<String>) -> Option<Seq<char>> {
    match text {
        Some(text) => Some(text@),
        None => None,
    }
}

impl UrlParts {
    /// Scheme, domain, port, path, user name and password, as plain values.
    pub open spec fn model(&self) -> (
        Seq<char>,
        Option<Seq<char>>,
        Option<u16>,
        Seq<char>,
        Seq<char>,
        Option<Seq<char>>,
    ) {
        (
            self.scheme@,
            opt_text(self.domain),
            self.port,
            self.path@,
            self.username@,
            opt_text(self.password),
        )
    }
}

/// What `url::Url::parse` and the accessors of the parsed URL give for a
/// text: scheme, domain, port, path, user name and password, or `None` if
/// the text does not parse.
pub uninterp spec fn url_parts(text: Seq<char>) -> Option<
    (Seq<char>, Option<Seq<char>>, Option<u16>, Seq<char>, Seq<char>, Option<Seq<char>>),
>;

/// What RFC 4648 base64 with padding and without line breaks, as
/// `rustc_serialize` encodes it, gives for a byte string.
pub uninterp spec fn base64_text(input: Seq<u8>) -> Seq<char>;

/// `url::Url::parse`, and of the parsed URL `scheme`, `domain`, `port`,
/// `path`, `username` and `password`: the parts of a URL, or `None` if the
/// text does not parse as one.
#[verifier::external_body]
pub(crate) fn parse_url(text: &str) -> (r: Option<UrlParts>)
    ensures
        match r {
            Some(parts) => url_parts(text@) == Some(parts.model()),
            None => url_parts(text@) is None,
        },
{
    match url::Url::parse(text) {
        Ok(url) => Some(
            UrlParts {
                scheme: String::from(url.scheme()),
                domain: url.domain().map(String::from),
                port: url.port(),
                path: String::from(url.path()),
                username: String::from(url.username()),
                password: url.password().map(String::from),
            },
        ),
        Err(_) => None,
    }
}

/// `rustc_serialize::base64::ToBase64::to_base64` with the `MIME`
/// configuration and line wrapping switched off.
#[verifier::external_body]
fn to_base64(input: &[u8]) -> (text: String)
    ensures
        text@ == base64_text(input@),
{
    let mut config = rustc_serialize::base64::MIME;
    config.line_length = None;
    rustc_serialize::base64::ToBase64::to_base64(input, config)
}

/// The decimal digits of a number.
pub open spec fn decimal(n: nat) -> Seq<char>
    decreases n,
{
    if n < 10 {
        seq![digit(n)]
    } else {
        decimal(n / 10).push(digit(n % 10))
    }
}

/// The character of a digit.
pub open spec fn digit(d: nat) -> char {
    if d == 0 {
        '0'
    } else if d == 1 {
        '1'
    } else if d == 2 {
        '2'
    } else if d == 3 {
        '3'
    } else if d == 4 {
        '4'
    } else if d == 5 {
        '5'
    } else if d == 6 {
        '6'
    } else if d == 7 {
        '7'
    } else if d == 8 {
        '8'
    } else {
        '9'
    }
}

/// The text of a digit.
fn digit_str(d: u64) -> (text: &'static str)
    requires
        d < 10,
    ensures
        text@ == seq![digit(d as nat)],
{
    proof {
        reveal_strlit("0");
        reveal_strlit("1");
        reveal_strlit("2");
        reveal_strlit("3");
        reveal_strlit("4");
        reveal_strlit("5");
        reveal_strlit("6");
        reveal_strlit("7");
        reveal_strlit("8");
        reveal_strlit("9");
    }
    let text = if d == 0 {
        "0"
    } else if d == 1 {
        "1"
    } else if d == 2 {
        "2"
    } else if d == 3 {
        "3"
    } else if d == 4 {
        "4"
    } else if d == 5 {
        "5"
    } else if d == 6 {
        "6"
    } else if d == 7 {
        "7"
    } else if d == 8 {
        "8"
    } else {
        "9"
    };
    assert(text@ =~= seq![digit(d as nat)]);
    text
}

/// Appends the decimal digits of a number.
pub fn push_decimal(text: &mut String, n: u64)
    ensures
        final(text)@ == old(text)@ + decimal(n as nat),
    decreases n,
{
    if n >= 10 {
        push_decimal(text, n / 10);
    }
    text.append(digit_str(n % 10));
    assert(text@ =~= old(text)@ + decimal(n as nat));
}

/// `domain:port`, with the default port if there is none; `None` without
/// a domain.
pub open spec fn endpoint_spec(domain: Option<Seq<char>>, port: Option<u16>) -> Option<Seq<char>> {
    match domain {
        None => None,
        Some(domain) => Some(
            domain + ":"@ + decimal(
                match port {
                    Some(port) => port as nat,
                    None => DEFAULT_PORT as nat,
                },
            ),
        ),
    }
}

/// User and password as they go into the authorization header: the user,
/// and behind a colon the password, as far as each is there; `None` if
/// neither is.
pub open spec fn userpass_spec(user: Option<Seq<char>>, password: Option<Seq<char>>) -> Option<
    Seq<char>,
> {
    if user is None && password is None {
        None
    } else {
        Some(
            (match user {
                Some(user) => user,
                None => Seq::<char>::empty(),
            }) + (match password {
                Some(password) => ":"@ + password,
                None => Seq::<char>::empty(),
            }),
        )
    }
}

/// The authorization header for a user and password, if either is there.
pub open spec fn authorization_spec(userpass: Option<Seq<char>>) -> Option<Seq<char>> {
    match userpass {
        None => None,
        Some(userpass) => Some("Authorization: Basic "@ + base64_text(encode_utf8(userpass))),
    }
}

/// The address to connect to: `domain:port`, with port 8000 if the URL
/// names none.
pub fn get_endpoint(domain: Option<&str>, port: Option<u16>) -> (r: Option<String>)
    ensures
        opt_text(r) == endpoint_spec(
            match domain {
                Some(domain) => Some(domain@),
                None => None,
            },
            port,
        ),
{
    match domain {
        None => None,
        Some(domain) => {
            let mut text = String::from_str(domain);
            text.append(":");
            push_decimal(
                &mut text,
                match port {
                    Some(port) => port as u64,
                    None => DEFAULT_PORT as u64,
                },
            );
            Some(text)
        },
    }
}

/// The `Host` header for a URL, if it names a domain.
pub fn get_host_header(domain: Option<&str>, port: Option<u16>) -> (r: Option<String>)
    ensures
        opt_text(r) == match endpoint_spec(
            match domain {
                Some(domain) => Some(domain@),
                None => None,
            },
            port,
        ) {
            Some(endpoint) => Some("Host: "@ + endpoint),
            None => None,
        },
{
    match get_endpoint(domain, port) {
        None => None,
        Some(endpoint) => {
            let mut text = String::from_str("Host: ");
            text.append(endpoint.as_str());
            Some(text)
        },
    }
}

/// User and password as they go into the authorization header.
pub fn join_userpass(user: Option<&str>, password: Option<&str>) -> (r: Option<String>)
    ensures
        opt_text(r) == userpass_spec(
            match user {
                Some(user) => Some(user@),
                None => None,
            },
            match password {
                Some(password) => Some(password@),
                None => None,
            },
        ),
{
    let mut emit = false;
    let mut userpass = String::new();
    if let Some(user) = user {
        emit = true;
        userpass.append(user);
    }
    let ghost with_user = userpass@;
    if let Some(password) = password {
        emit = true;
        userpass.append(":");
        userpass.append(password);
        assert(userpass@ =~= with_user + (":"@ + password@));
    } else {
        assert(userpass@ =~= with_user + Seq::<char>::empty());
    }
    proof {
        if user is None {
            assert(with_user =~= Seq::<char>::empty());
        } else {
            assert(with_user =~= user->Some_0@);
        }
    }
    if emit {
        Some(userpass)
    } else {
        None
    }
}

/// The authorization header for a user and password, if either is there.
pub fn get_authorization_header(user: Option<&str>, password: Option<&str>) -> (r: Option<String>)
    ensures
        opt_text(r) == authorization_spec(
            userpass_spec(
                match user {
                    Some(user) => Some(user@),
                    None => None,
                },
                match password {
                    Some(password) => Some(password@),
                    None => None,
                },
            ),
        ),
{
    match join_userpass(user, password) {
        None => None,
        Some(userpass) => {
            let encoded = to_base64(userpass.as_str().as_bytes());
            let mut text = String::from_str("Authorization: Basic ");
            text.append(encoded.as_str());
            Some(text)
        },
    }
}

/// Borrows the text of a string that may be there.
fn as_opt_str(text: &Option<String>) -> (r: Option<&str>)
    ensures
        match r {
            Some(r) => *text is Some && r@ == text->Some_0@,
            None => *text is None,
        },
{
    match text {
        Some(text) => Some(text.as_str()),
        None => None,
    }
}

/// Where the stream goes and what is told about it.
#[derive(Debug)]
pub struct IceCastWriterOptions {
    pub host: String,
    pub port: u16,
    // should start with a `/`, e.g. `/mymount.ogg`
    pub mount: String,
    pub user: Option<String>,
    pub password: Option<String>,
    pub public: bool,
    pub name: Option<String>,
    pub description: Option<String>,
    pub url: Option<String>,
    pub genre: Option<String>,
}

/// What options hold, as plain values.
pub struct OptionsModel {
    pub host: Seq<char>,
    pub port: u16,
    pub mount: Seq<char>,
    pub user: Option<Seq<char>>,
    pub password: Option<Seq<char>>,
    pub public: bool,
    pub name: Option<Seq<char>>,
    pub description: Option<Seq<char>>,
    pub url: Option<Seq<char>>,
    pub genre: Option<Seq<char>>,
}

impl View for IceCastWriterOptions {
    type V = OptionsModel;

    open spec fn view(&self) -> OptionsModel {
        OptionsModel {
            host: self.host@,
            port: self.port,
            mount: self.mount@,
            user: opt_text(self.user),
            password: opt_text(self.password),
            public: self.public,
            name: opt_text(self.name),
            description: opt_text(self.description),
            url: opt_text(self.url),
            genre: opt_text(self.genre),
        }
    }
}

/// The options that are taken if nothing else is said: a server on this
/// machine.
pub open spec fn default_options() -> OptionsModel {
    OptionsModel {
        host: "127.0.0.1"@,
        port: DEFAULT_PORT,
        mount: "/mountpoint.ogg"@,
        user: None,
        password: None,
        public: false,
        name: None,
        description: None,
        url: None,
        genre: None,
    }
}

/// The default options with what a URL says in place of what it says
/// something about.
pub open spec fn options_from(
    parts: (Seq<char>, Option<Seq<char>>, Option<u16>, Seq<char>, Seq<char>, Option<Seq<char>>),
) -> OptionsModel {
    OptionsModel {
        host: match parts.1 {
            Some(domain) => domain,
            None => default_options().host,
        },
        port: match parts.2 {
            Some(port) => port,
            None => DEFAULT_PORT,
        },
        mount: if parts.3.len() > 0 {
            parts.3
        } else {
            default_options().mount
        },
        user: if parts.4.len() > 0 {
            Some(parts.4)
        } else {
            None
        },
        password: parts.5,
        ..default_options()
    }
}

/// A header line: name, value, and the end of the line.
pub open spec fn header_line(name: Seq<char>, value: Seq<char>) -> Seq<char> {
    name + value + "\r\n"@
}

/// A header line for a value that may be there.
pub open spec fn opt_header_line(name: Seq<char>, value: Option<Seq<char>>) -> Seq<char> {
    match value {
        Some(value) => header_line(name, value),
        None => Seq::<char>::empty(),
    }
}

/// The request that opens the stream.
pub open spec fn source_request_spec(o: OptionsModel) -> Seq<char> {
    "SOURCE "@ + o.mount + " HTTP/1.0\r\n"@ + opt_header_line(
        Seq::<char>::empty(),
        authorization_spec(userpass_spec(o.user, o.password)),
    ) + header_line("Host: "@, o.host + ":"@ + decimal(o.port as nat)) + "User-Agent: ireul\r\n"@
        + (if o.public {
        "Ice-Public: 1\r\n"@
    } else {
        Seq::<char>::empty()
    }) + opt_header_line("Ice-Name: "@, o.name) + opt_header_line(
        "Ice-Description: "@,
        o.description,
    ) + opt_header_line("Ice-Url: "@, o.url) + opt_header_line("Ice-Genre: "@, o.genre)
        + "Content-Type: audio/ogg\r\n"@ + "\r\n"@
}

/// Appends a header line for a value that may be there.
fn push_opt_header(text: &mut String, name: &str, value: Option<&str>)
    ensures
        final(text)@ == old(text)@ + opt_header_line(
            name@,
            match value {
                Some(value) => Some(value@),
                None => None,
            },
        ),
{
    match value {
        Some(value) => {
            text.append(name);
            text.append(value);
            text.append("\r\n");
            assert(text@ =~= old(text)@ + header_line(name@, value@));
        },
        None => {
            assert(text@ =~= old(text)@ + Seq::<char>::empty());
        },
    }
}

impl Default for IceCastWriterOptions {
    fn default() -> (options: IceCastWriterOptions)
        ensures
            options@ == default_options(),
    {
        IceCastWriterOptions {
            host: String::from_str("127.0.0.1"),
            port: DEFAULT_PORT,
            mount: String::from_str("/mountpoint.ogg"),
            user: None,
            password: None,
            public: false,
            name: None,
            description: None,
            url: None,
            genre: None,
        }
    }
}

impl IceCastWriterOptions {
    /// The options for the server that a URL names. The scheme must be
    /// `http`.
    pub fn from_url(url: &UrlParts) -> (r: Result<IceCastWriterOptions, &'static str>)
        ensures
            match r {
                Ok(options) => url.scheme@ == "http"@ && options@ == options_from(url.model()),
                Err(_) => url.scheme@ != "http"@,
            },
    {
        if !crate::codec::str_eq(url.scheme.as_str(), "http") {
            return Err("scheme must be http");
        }
        let mut options = IceCastWriterOptions::default();
        if let Some(domain) = &url.domain {
            options.set_host(domain.as_str());
        }
        if let Some(port) = url.port {
            options.set_port(port);
        }
        if url.path.as_str().as_bytes().len() > 0 {
            options.set_mount(url.path.as_str());
        } else {
            proof {
                lemma_no_bytes_no_chars(url.path@);
            }
        }
        if url.username.as_str().as_bytes().len() > 0 {
            options.set_user(url.username.as_str());
        } else {
            proof {
                lemma_no_bytes_no_chars(url.username@);
            }
        }
        if let Some(password) = &url.password {
            options.set_password(password.as_str());
        }
        proof {
            lemma_bytes_of_chars(url.path@);
            lemma_bytes_of_chars(url.username@);
        }
        Ok(options)
    }

    /// Sets the host.
    pub fn set_host(&mut self, host: &str) -> (options: &mut Self)
        ensures
            options@ == (OptionsModel { host: host@, ..old(self)@ }),
            *final(self) == *final(options),
    {
        self.host = String::from_str(host);
        self
    }

    /// Sets the port.
    pub fn set_port(&mut self, port: u16) -> (options: &mut Self)
        ensures
            options@ == (OptionsModel { port, ..old(self)@ }),
            *final(self) == *final(options),
    {
        self.port = port;
        self
    }

    /// Sets the mount point.
    pub fn set_mount(&mut self, mount: &str) -> (options: &mut Self)
        ensures
            options@ == (OptionsModel { mount: mount@, ..old(self)@ }),
            *final(self) == *final(options),
    {
        self.mount = String::from_str(mount);
        self
    }

    /// Sets the user.
    pub fn set_user(&mut self, user: &str) -> (options: &mut Self)
        ensures
            options@ == (OptionsModel { user: Some(user@), ..old(self)@ }),
            *final(self) == *final(options),
    {
        self.user = Some(String::from_str(user));
        self
    }

    /// Sets the password.
    pub fn set_password(&mut self, password: &str) -> (options: &mut Self)
        ensures
            options@ == (OptionsModel { password: Some(password@), ..old(self)@ }),
            *final(self) == *final(options),
    {
        self.password = Some(String::from_str(password));
        self
    }

    /// Sets whether the stream is listed publicly.
    pub fn set_public(&mut self, public: bool) -> (options: &mut Self)
        ensures
            options@ == (OptionsModel { public, ..old(self)@ }),
            *final(self) == *final(options),
    {
        self.public = public;
        self
    }

    /// Sets the name of the stream.
    pub fn set_name(&mut self, name: &str) -> (options: &mut Self)
        ensures
            options@ == (OptionsModel { name: Some(name@), ..old(self)@ }),
            *final(self) == *final(options),
    {
        self.name = Some(String::from_str(name));
        self
    }

    /// Sets the description of the stream.
    pub fn set_description(&mut self, description: &str) -> (options: &mut Self)
        ensures
            options@ == (OptionsModel { description: Some(description@), ..old(self)@ }),
            *final(self) == *final(options),
    {
        self.description = Some(String::from_str(description));
        self
    }

    /// Sets the URL of the stream's web page.
    pub fn set_url(&mut self, url: &str) -> (options: &mut Self)
        ensures
            options@ == (OptionsModel { url: Some(url@), ..old(self)@ }),
            *final(self) == *final(options),
    {
        self.url = Some(String::from_str(url));
        self
    }

    /// Sets the genre of the stream.
    pub fn set_genre(&mut self, genre: &str) -> (options: &mut Self)
        ensures
            options@ == (OptionsModel { genre: Some(genre@), ..old(self)@ }),
            *final(self) == *final(options),
    {
        self.genre = Some(String::from_str(genre));
        self
    }

    /// Host and port to connect to.
    pub fn endpoint(&self) -> (r: (&str, u16))
        ensures
            r.0@ == self@.host,
            r.1 == self@.port,
    {
        (self.host.as_str(), self.port)
    }

    /// Host and port as `host:port`.
    pub fn endpoint_name(&self) -> (name: String)
        ensures
            name@ == self@.host + ":"@ + decimal(self@.port as nat),
    {
        let mut name = String::from_str(self.host.as_str());
        name.append(":");
        push_decimal(&mut name, self.port as u64);
        name
    }

    /// User and password as they go into the authorization header.
    pub fn get_userpass(&self) -> (r: Option<String>)
        ensures
            opt_text(r) == userpass_spec(self@.user, self@.password),
    {
        join_userpass(as_opt_str(&self.user), as_opt_str(&self.password))
    }

    /// Whether the mount point begins with `/`, as Icecast asks.
    pub fn mount_is_rooted(&self) -> (yes: bool)
        ensures
            yes == (encode_utf8(self@.mount).len() > 0 && encode_utf8(self@.mount)[0] == 0x2f),
    {
        let bytes = self.mount.as_str().as_bytes();
        bytes.len() > 0 && bytes[0] == 0x2f
    }

    /// The request that opens the stream: the `SOURCE` line, the
    /// authorization if a user or password is set, host, user agent, what
    /// is told about the stream, and the content type last.
    pub fn source_request(&self) -> (request: String)
        ensures
            request@ == source_request_spec(self@),
    {
        let mut text = String::from_str("SOURCE ");
        text.append(self.mount.as_str());
        text.append(" HTTP/1.0\r\n");
        let authorization = get_authorization_header(
            as_opt_str(&self.user),
            as_opt_str(&self.password),
        );
        push_opt_header(&mut text, "", as_opt_str(&authorization));
        proof {
            reveal_strlit("");
            assert(""@ =~= Seq::<char>::empty());
        }
        let endpoint = self.endpoint_name();
        text.append("Host: ");
        text.append(endpoint.as_str());
        text.append("\r\n");
        text.append("User-Agent: ireul\r\n");
        if self.public {
            text.append("Ice-Public: 1\r\n");
        }
        let ghost head = text@;
        proof {
            assert(head =~= "SOURCE "@ + self@.mount + " HTTP/1.0\r\n"@ + opt_header_line(
                Seq::<char>::empty(),
                authorization_spec(userpass_spec(self@.user, self@.password)),
            ) + header_line("Host: "@, self@.host + ":"@ + decimal(self@.port as nat))
                + "User-Agent: ireul\r\n"@ + (if self@.public {
                "Ice-Public: 1\r\n"@
            } else {
                Seq::<char>::empty()
            }));
        }
        push_opt_header(&mut text, "Ice-Name: ", as_opt_str(&self.name));
        push_opt_header(&mut text, "Ice-Description: ", as_opt_str(&self.description));
        push_opt_header(&mut text, "Ice-Url: ", as_opt_str(&self.url));
        push_opt_header(&mut text, "Ice-Genre: ", as_opt_str(&self.genre));
        // Content-Type goes last: Icecast took the stream for audio/mpeg when it came earlier.
        text.append("Content-Type: audio/ogg\r\n");
        text.append("\r\n");
        text
    }
}

/// A text without bytes has no characters.
pub proof fn lemma_no_bytes_no_chars(text: Seq<char>)
    requires
        encode_utf8(text).len() == 0,
    ensures
        text.len() == 0,
{
    encode_utf8_decode_utf8(text);
    assert(decode_utf8(encode_utf8(text)) =~= Seq::<char>::empty());
}

/// A text with bytes has characters.
pub proof fn lemma_bytes_of_chars(text: Seq<char>)
    ensures
        encode_utf8(text).len() > 0 <==> text.len() > 0,
{
    if encode_utf8(text).len() == 0 {
        lemma_no_bytes_no_chars(text);
    }
    if text.len() == 0 {
        assert(encode_utf8(text) =~= Seq::<u8>::empty());
    }
}

/// What the configuration file says about the stream.
#[derive(Debug)]
pub struct MetadataConfig {
    pub name: Option<String>,
    pub description: Option<String>,
    pub url: Option<String>,
    pub genre: Option<String>,
}

/// The configuration.
#[derive(Debug)]
pub struct Config {
    pub icecast_url: String,
    pub metadata: Option<MetadataConfig>,
    pub fallback_track: Option<String>,
}

impl Config {
    /// The parts of the configured Icecast URL, if it parses.
    pub fn icecast_url(&self) -> (r: Option<UrlParts>)
        ensures
            match r {
                Some(parts) => url_parts(self.icecast_url@) == Some(parts.model()),
                None => url_parts(self.icecast_url@) is None,
            },
    {
        parse_url(self.icecast_url.as_str())
    }

    /// The default options with what the configuration says about the
    /// stream.
    pub fn icecast_writer_opts(&self) -> (r: Result<IceCastWriterOptions, String>)
        ensures
            match r {
                Ok(options) => options@ == match self.metadata {
                    Some(metadata) => OptionsModel {
                        name: opt_text(metadata.name),
                        description: opt_text(metadata.description),
                        url: opt_text(metadata.url),
                        genre: opt_text(metadata.genre),
                        ..default_options()
                    },
                    None => default_options(),
                },
                Err(_) => false,
            },
    {
        let mut opts = IceCastWriterOptions::default();
        if let Some(metadata) = &self.metadata {
            if let Some(name) = &metadata.name {
                opts.set_name(name.as_str());
            }
            if let Some(description) = &metadata.description {
                opts.set_description(description.as_str());
            }
            if let Some(url) = &metadata.url {
                opts.set_url(url.as_str());
            }
            if let Some(genre) = &metadata.genre {
                opts.set_genre(genre.as_str());
            }
        }
        Ok(opts)
    }
}

} // verus!
