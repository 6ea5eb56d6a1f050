//! Where the repository lives: given on the command line, configured in the
//! settings file, or the conventional default below the home directory.

use quick_xml::events::Event;
use quick_xml::name::QName;
use quick_xml::Reader;
use vstd::prelude::*;
use vstd::string::*;

verus! {

#[verifier::external_type_specification]
#[verifier::external_body]
#[verifier::reject_recursive_types(R)]
pub struct ExReader<R>(Reader<R>);

/// One step through the settings document.
pub enum XmlEvent {
    /// An opening tag, with its name.
    Start(Vec<u8>),
    /// The end of the document.
    Eof,
    /// A malformed document.
    Error,
    /// Anything else.
    Other,
}

/// What an `XmlEvent` says, as plain values.
pub enum XmlStep {
    Start(Seq<u8>),
    Eof,
    Error,
    Other,
}

pub open spec fn step_of(e: XmlEvent) -> XmlStep {
    match e {
        XmlEvent::Start(name) => XmlStep::Start(name@),
        XmlEvent::Eof => XmlStep::Eof,
        XmlEvent::Error => XmlStep::Error,
        XmlEvent::Other => XmlStep::Other,
    }
}

/// The event number `i` (from 0) that a quick-xml reader over `text`, trimming
/// white space around text, yields.
pub uninterp spec fn xml_event(text: Seq<char>, i: nat) -> XmlStep;

/// What reading the text up to the closing tag `name` yields, from a
/// quick-xml reader over `text` (trimming white space around text) that has
/// yielded `i` events.
pub uninterp spec fn xml_text(text: Seq<char>, i: nat, name: Seq<u8>) -> Option<Seq<char>>;

/// A reader over a settings document, with the document and the number of
/// events read so far.
struct SettingsReader<'a> {
    reader: Reader<&'a [u8]>,
    text: Ghost<Seq<char>>,
    read: Ghost<nat>,
}

impl<'a> SettingsReader<'a> {
    /// Relies on `quick_xml::Reader::from_str` and
    /// `quick_xml::Reader::trim_text`: a reader over `text` that drops white
    /// space around text and has read nothing yet.
    #[verifier::external_body]
    fn new(text: &'a str) -> (r: SettingsReader<'a>)
        ensures
            r.text@ == text@,
            r.read@ == 0,
    {
        let mut reader = Reader::from_str(text);
        reader.trim_text(true);
        SettingsReader { reader, text: Ghost(text@), read: Ghost(0) }
    }
}

/// Relies on `quick_xml::Reader::read_event`: the next event, which depends
/// on the document and on how many events came before.
#[verifier::external_body]
fn next_event(r: &mut SettingsReader) -> (e: XmlEvent)
    ensures
        step_of(e) == xml_event(old(r).text@, old(r).read@),
        final(r).text == old(r).text,
        final(r).read@ == old(r).read@ + 1,
{
    match r.reader.read_event() {
        Ok(Event::Start(e)) => XmlEvent::Start(e.name().as_ref().to_vec()),
        Ok(Event::Eof) => XmlEvent::Eof,
        Ok(_) => XmlEvent::Other,
        Err(_) => XmlEvent::Error,
    }
}

/// Relies on `quick_xml::Reader::read_text`: the text up to the closing tag
/// `name`, where there is one.
#[verifier::external_body]
fn text_until(r: &mut SettingsReader, name: &[u8]) -> (t: Option<String>)
    ensures
        text_of(t) == xml_text(old(r).text@, old(r).read@, name@),
{
    match r.reader.read_text(QName(name)) {
        Ok(text) => Some(text.into_owned()),
        Err(_) => None,
    }
}

pub open spec fn text_of(t: Option<String>) -> Option<Seq<char>> {
    match t {
        Some(s) => Some(s@),
        None => None,
    }
}

fn is_local_repository(name: &Vec<u8>) -> (r: bool)
    ensures
        r == (name@ == local_repository_tag()),
{
    let tag: Vec<u8> = vec![108, 111, 99, 97, 108, 82, 101, 112, 111, 115, 105, 116, 111, 114, 121];
    assert(tag@ =~= local_repository_tag());
    if name.len() != tag.len() {
        return false;
    }
    let mut i: usize = 0;
    while i < tag.len()
        invariant
            name.len() == tag.len(),
            i <= tag.len(),
            tag@ == local_repository_tag(),
            forall|j: int| 0 <= j < i ==> name@[j] == tag@[j],
        decreases tag.len() - i,
    {
        if name[i] != tag[i] {
            return false;
        }
        i = i + 1;
    }
    assert(name@ =~= tag@);
    true
}

/// The bytes of `localRepository`.
pub open spec fn local_repository_tag() -> Seq<u8> {
    seq![108u8, 111, 99, 97, 108, 82, 101, 112, 111, 115, 105, 116, 111, 114, 121]
}

/// Scanning the events of `text` from number `i` on, with `budget` more
/// events allowed after this one: the text of the first `localRepository`
/// element, or nothing where the document ends or is malformed first.
pub open spec fn scan_settings(text: Seq<char>, i: nat, budget: nat) -> Option<Seq<char>>
    decreases budget,
{
    match xml_event(text, i) {
        XmlStep::Start(name) => if name == local_repository_tag() {
            xml_text(text, i + 1, local_repository_tag())
        } else if budget == 0 {
            None
        } else {
            scan_settings(text, i + 1, (budget - 1) as nat)
        },
        XmlStep::Eof | XmlStep::Error => None,
        XmlStep::Other => if budget == 0 {
            None
        } else {
            scan_settings(text, i + 1, (budget - 1) as nat)
        },
    }
}

/// The text of the first `<localRepository>` element of the settings
/// document, if one comes before the end of the document or an error. Every
/// event before the end consumes at least one character (a tag begins with
/// `<`, a text is not empty), so at most one event more than the document has
/// characters is read.
pub fn configured_repository(settings: &str) -> (r: Option<String>)
    ensures
        text_of(r) == scan_settings(settings@, 0, settings@.len()),
{
    let mut reader = SettingsReader::new(settings);
    let tag: Vec<u8> = vec![108, 111, 99, 97, 108, 82, 101, 112, 111, 115, 105, 116, 111, 114, 121];
    assert(tag@ =~= local_repository_tag());
    let mut budget: usize = settings.unicode_len();
    loop
        invariant
            reader.text@ == settings@,
            tag@ == local_repository_tag(),
            scan_settings(settings@, 0, settings@.len()) == scan_settings(
                settings@,
                reader.read@,
                budget as nat,
            ),
        decreases budget,
    {
        let ghost at = reader.read@;
        match next_event(&mut reader) {
            XmlEvent::Start(name) => {
                if is_local_repository(&name) {
                    return text_until(&mut reader, tag.as_slice());
                }
            },
            XmlEvent::Eof | XmlEvent::Error => {
                return None;
            },
            XmlEvent::Other => {},
        }
        if budget == 0 {
            return None;
        }
        budget = budget - 1;
        assert(reader.read@ == at + 1);
    }
}

/// The default repository below the home directory `home`.
pub open spec fn default_root(home: Seq<char>) -> Seq<char> {
    home + seq!['/', '.', 'm', '2', '/', 'r', 'e', 'p', 'o', 's', 'i', 't', 'o', 'r', 'y']
}

/// The repository's root: the path given on the command line, else the one
/// configured in the settings file, else the default below `home`.
pub fn resolve_root(explicit: Option<String>, configured: Option<String>, home: &str) -> (r: String)
    ensures
        r@ == match (explicit, configured) {
            (Some(p), _) => p@,
            (None, Some(c)) => c@,
            (None, None) => default_root(home@),
        },
{
    match explicit {
        Some(p) => p,
        None => match configured {
            Some(c) => c,
            None => {
                let suffix = "/.m2/repository";
                proof {
                    reveal_strlit("/.m2/repository");
                }
                let r = home.to_owned().concat(suffix);
                assert(r@ =~= default_root(home@));
                r
            },
        },
    }
}

} // verus!
