//! Tests of the event reader, the front end that skips comments.

use reader_for_microxml::reader_for_microxml::Event;
use reader_for_microxml::reader_for_microxml::ReaderForMicroXml;

/// A simple element gives start, text, end, then the end of input forever.
#[test]
fn events_simple_element() {
    let mut reader = ReaderForMicroXml::new("<a>x</a>");
    assert!(matches!(reader.read_event(), Event::StartElement("a")));
    assert!(matches!(reader.read_event(), Event::TextNode("x")));
    assert!(matches!(reader.read_event(), Event::EndElement("a")));
    assert!(matches!(reader.read_event(), Event::Eof));
    assert!(matches!(reader.read_event(), Event::Eof));
}

/// Attributes come between the start event and the text.
#[test]
fn events_attribute() {
    let mut reader = ReaderForMicroXml::new("<html class=\"cl_name\">test</html>");
    assert!(matches!(reader.read_event(), Event::StartElement("html")));
    match reader.read_event() {
        Event::Attribute(n, v) => {
            assert_eq!(n, "class");
            assert_eq!(v, "cl_name");
        }
        other => panic!("expected an attribute, got {:?}", other),
    }
    assert!(matches!(reader.read_event(), Event::TextNode("test")));
    assert!(matches!(reader.read_event(), Event::EndElement("html")));
    assert!(matches!(reader.read_event(), Event::Eof));
}

/// This reader consumes comments silently and yields what follows them.
#[test]
fn events_skip_comment() {
    let mut reader = ReaderForMicroXml::new("<a><!--c-->x</a>");
    assert!(matches!(reader.read_event(), Event::StartElement("a")));
    assert!(matches!(reader.read_event(), Event::TextNode("x")));
    assert!(matches!(reader.read_event(), Event::EndElement("a")));
    assert!(matches!(reader.read_event(), Event::Eof));
}

/// A malformed attribute is an error event, returned again on every later
/// read.
#[test]
fn events_error_repeats() {
    let mut reader = ReaderForMicroXml::new("<html no_good >");
    assert!(matches!(reader.read_event(), Event::StartElement("html")));
    assert!(matches!(
        reader.read_event(),
        Event::Error("Attribute does not have the char = .")
    ));
    assert!(matches!(
        reader.read_event(),
        Event::Error("Attribute does not have the char = .")
    ));
}

/// End of input inside a tag is the out-of-place end of input error.
#[test]
fn events_eof_inside_tag() {
    let mut reader = ReaderForMicroXml::new("<a");
    assert!(matches!(reader.read_event(), Event::Error("Eof on incorrect position.")));
}

/// A self-closing tag gives the start event and the empty-name end event.
#[test]
fn events_self_closing() {
    let mut reader = ReaderForMicroXml::new("<br/>next");
    assert!(matches!(reader.read_event(), Event::StartElement("br")));
    assert!(matches!(reader.read_event(), Event::EndElement("")));
    assert!(matches!(reader.read_event(), Event::TextNode("next")));
    assert!(matches!(reader.read_event(), Event::Eof));
}

/// An empty input is the end of input at once.
#[test]
fn events_empty_input() {
    let mut reader = ReaderForMicroXml::new("");
    assert!(matches!(reader.read_event(), Event::Eof));
}
