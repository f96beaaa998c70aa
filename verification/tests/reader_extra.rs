//! Further tests of the token reader: the self-closing pair, clean end of
//! input, mismatched names, comments, each error message, and multi-byte
//! characters.

use reader_for_microxml::ReaderForMicroXml;
use reader_for_microxml::Token;
use reader_for_microxml::PosChar;

/// A self-closing tag alone yields exactly the start event and the end
/// event with the empty name, then the clean end of input.
#[test]
fn self_closing_pair() {
    let mut reader = ReaderForMicroXml::new("<x/>");
    assert!(matches!(reader.read_token(), Some(Ok(Token::StartElement("x")))));
    assert!(matches!(reader.read_token(), Some(Ok(Token::EndElement("")))));
    assert!(reader.read_token().is_none());
}

/// White space inside the tag does not change the self-closing pair.
#[test]
fn self_closing_pair_with_whitespace() {
    let mut reader = ReaderForMicroXml::new("<x / >");
    assert!(matches!(reader.read_token(), Some(Ok(Token::StartElement("x")))));
    assert!(matches!(reader.read_token(), Some(Ok(Token::EndElement("")))));
    assert!(reader.read_token().is_none());
}

/// A slash not followed by `>` is an error, not a self-closing tag.
#[test]
fn slash_without_gt_is_error() {
    let mut reader = ReaderForMicroXml::new("<x /y>");
    assert!(matches!(reader.read_token(), Some(Ok(Token::StartElement("x")))));
    assert!(matches!(reader.read_token(), Some(Err("Error: Tag has / but not />"))));
}

/// Mismatched tag names are not rejected.
#[test]
fn mismatched_names_pass_through() {
    let mut reader = ReaderForMicroXml::new("<a>x</b>");
    assert!(matches!(reader.read_token(), Some(Ok(Token::StartElement("a")))));
    assert!(matches!(reader.read_token(), Some(Ok(Token::TextNode("x")))));
    assert!(matches!(reader.read_token(), Some(Ok(Token::EndElement("b")))));
    assert!(reader.read_token().is_none());
}

/// End of input immediately after a well-formed closing tag is clean, and
/// stays clean on every later read.
#[test]
fn clean_eof_after_end_tag() {
    let mut reader = ReaderForMicroXml::new("<a>x</a>");
    assert!(matches!(reader.read_token(), Some(Ok(Token::StartElement("a")))));
    assert!(matches!(reader.read_token(), Some(Ok(Token::TextNode("x")))));
    assert!(matches!(reader.read_token(), Some(Ok(Token::EndElement("a")))));
    assert!(reader.read_token().is_none());
    assert!(reader.read_token().is_none());
}

/// Trailing white space after the final end tag is still a clean end.
#[test]
fn clean_eof_after_end_tag_trailing_ws() {
    let mut reader = ReaderForMicroXml::new("<a>x</a>\n  ");
    assert!(matches!(reader.read_token(), Some(Ok(Token::StartElement("a")))));
    assert!(matches!(reader.read_token(), Some(Ok(Token::TextNode("x")))));
    assert!(matches!(reader.read_token(), Some(Ok(Token::EndElement("a")))));
    assert!(reader.read_token().is_none());
}

/// Text nodes keep every space, tab and newline verbatim.
#[test]
fn text_whitespace_verbatim() {
    let mut reader = ReaderForMicroXml::new("<a>\t one \n two \n</a>");
    assert!(matches!(reader.read_token(), Some(Ok(Token::StartElement("a")))));
    match reader.read_token() {
        Some(Ok(Token::TextNode(t))) => assert_eq!(t, "\t one \n two \n"),
        other => panic!("expected a text node, got {:?}", other),
    }
    assert!(matches!(reader.read_token(), Some(Ok(Token::EndElement("a")))));
}

/// Entity references are passed through undecoded.
#[test]
fn entities_pass_through() {
    let mut reader = ReaderForMicroXml::new("<a>x &amp; &#xE343; y</a>");
    assert!(matches!(reader.read_token(), Some(Ok(Token::StartElement("a")))));
    match reader.read_token() {
        Some(Ok(Token::TextNode(t))) => assert_eq!(t, "x &amp; &#xE343; y"),
        other => panic!("expected a text node, got {:?}", other),
    }
}

/// This reader reports comments, without their delimiters.
#[test]
fn comment_is_reported() {
    let mut reader = ReaderForMicroXml::new("<a><!-- hi -->x</a>");
    assert!(matches!(reader.read_token(), Some(Ok(Token::StartElement("a")))));
    match reader.read_token() {
        Some(Ok(Token::Comment(t))) => assert_eq!(t, " hi "),
        other => panic!("expected a comment, got {:?}", other),
    }
    assert!(matches!(reader.read_token(), Some(Ok(Token::TextNode("x")))));
    assert!(matches!(reader.read_token(), Some(Ok(Token::EndElement("a")))));
}

/// A comment may hold single dashes; the first `-->` closes it.
#[test]
fn comment_with_dashes() {
    let mut reader = ReaderForMicroXml::new("<a><!--x->y-->z</a>");
    assert!(matches!(reader.read_token(), Some(Ok(Token::StartElement("a")))));
    match reader.read_token() {
        Some(Ok(Token::Comment(t))) => assert_eq!(t, "x->y"),
        other => panic!("expected a comment, got {:?}", other),
    }
    assert!(matches!(reader.read_token(), Some(Ok(Token::TextNode("z")))));
}

/// An unterminated comment is an unexpected end of input.
#[test]
fn comment_unterminated_is_error() {
    let mut reader = ReaderForMicroXml::new("<a><!-- x");
    assert!(matches!(reader.read_token(), Some(Ok(Token::StartElement("a")))));
    assert!(matches!(reader.read_token(), Some(Err("Error: Unexpected end of input."))));
}

/// A bare attribute with no value produces an error event, not a crash.
#[test]
fn attribute_without_value_is_error() {
    let mut reader = ReaderForMicroXml::new("<html no_good >");
    assert!(matches!(reader.read_token(), Some(Ok(Token::StartElement("html")))));
    assert!(matches!(
        reader.read_token(),
        Some(Err("Error: Attribute does not have the char = ."))
    ));
}

/// The same error is returned again on every later read.
#[test]
fn error_repeats() {
    let mut reader = ReaderForMicroXml::new("<html no_good >");
    assert!(matches!(reader.read_token(), Some(Ok(Token::StartElement("html")))));
    assert!(matches!(
        reader.read_token(),
        Some(Err("Error: Attribute does not have the char = ."))
    ));
    assert!(matches!(
        reader.read_token(),
        Some(Err("Error: Attribute does not have the char = ."))
    ));
}

/// An attribute whose name is not followed by `=` is malformed, even when
/// a quoted value follows.
#[test]
fn attribute_without_equals_is_error() {
    let mut reader = ReaderForMicroXml::new("<a b \"v\">x</a>");
    assert!(matches!(reader.read_token(), Some(Ok(Token::StartElement("a")))));
    assert!(matches!(
        reader.read_token(),
        Some(Err("Error: Attribute does not have the char = ."))
    ));
}

/// An embedded `"` always closes the value: no escaping is recognized.
#[test]
fn attribute_value_ends_at_quote() {
    let mut reader = ReaderForMicroXml::new("<a b=\"v\\\" w\">");
    assert!(matches!(reader.read_token(), Some(Ok(Token::StartElement("a")))));
    match reader.read_token() {
        Some(Ok(Token::Attribute(n, v))) => {
            assert_eq!(n, "b");
            assert_eq!(v, "v\\");
        }
        other => panic!("expected an attribute, got {:?}", other),
    }
}

/// An empty element name is malformed.
#[test]
fn empty_name_is_error() {
    let mut reader = ReaderForMicroXml::new("<>x");
    assert!(matches!(reader.read_token(), Some(Err("Error: Element name is empty."))));
}

/// An end tag without its `>` is malformed.
#[test]
fn end_tag_missing_gt_is_error() {
    let mut reader = ReaderForMicroXml::new("<a>x</a b");
    assert!(matches!(reader.read_token(), Some(Ok(Token::StartElement("a")))));
    assert!(matches!(reader.read_token(), Some(Ok(Token::TextNode("x")))));
    assert!(matches!(reader.read_token(), Some(Err("End Element does not have > ."))));
}

/// End of input in the middle of a tag is malformed.
#[test]
fn eof_inside_tag_is_error() {
    let mut reader = ReaderForMicroXml::new("<a");
    assert!(matches!(reader.read_token(), Some(Err("Error: Unexpected end of input."))));
}

/// An empty input is a clean end of input at once.
#[test]
fn empty_input_is_clean() {
    let mut reader = ReaderForMicroXml::new("");
    assert!(reader.read_token().is_none());
    assert!(reader.read_token().is_none());
}

/// White space alone is a clean end of input, with no text node.
#[test]
fn whitespace_only_input_is_clean() {
    let mut reader = ReaderForMicroXml::new("  \n\t ");
    assert!(reader.read_token().is_none());
}

/// Multi-byte characters pass through names, values and text unharmed.
#[test]
fn multibyte_characters() {
    let mut reader = ReaderForMicroXml::new("<п a=\"λμ\">héλλo•</п>");
    match reader.read_token() {
        Some(Ok(Token::StartElement(n))) => assert_eq!(n, "п"),
        other => panic!("expected a start, got {:?}", other),
    }
    match reader.read_token() {
        Some(Ok(Token::Attribute(n, v))) => {
            assert_eq!(n, "a");
            assert_eq!(v, "λμ");
        }
        other => panic!("expected an attribute, got {:?}", other),
    }
    match reader.read_token() {
        Some(Ok(Token::TextNode(t))) => assert_eq!(t, "héλλo•"),
        other => panic!("expected a text node, got {:?}", other),
    }
    match reader.read_token() {
        Some(Ok(Token::EndElement(n))) => assert_eq!(n, "п"),
        other => panic!("expected an end, got {:?}", other),
    }
    assert!(reader.read_token().is_none());
}

/// A text node that runs to the end of the buffer ends there, even with a
/// multi-byte character last.
#[test]
fn multibyte_text_to_end() {
    let mut reader = ReaderForMicroXml::new("<a>té•");
    assert!(matches!(reader.read_token(), Some(Ok(Token::StartElement("a")))));
    match reader.read_token() {
        Some(Ok(Token::TextNode(t))) => assert_eq!(t, "té•"),
        other => panic!("expected a text node, got {:?}", other),
    }
    assert!(reader.read_token().is_none());
}

/// A position-with-character pair stores what it is set to.
#[test]
fn pos_char_set() {
    let mut pc = PosChar { pos: 0, ch: ' ' };
    pc.set((7, 'q'));
    assert_eq!(pc.pos, 7);
    assert_eq!(pc.ch, 'q');
}

/// White space standing alone between tags is not a text node: text nodes
/// carry at least one significant character.
#[test]
fn whitespace_between_tags_is_silent() {
    let mut reader = ReaderForMicroXml::new("<a> <b/> </a>");
    assert!(matches!(reader.read_token(), Some(Ok(Token::StartElement("a")))));
    assert!(matches!(reader.read_token(), Some(Ok(Token::StartElement("b")))));
    assert!(matches!(reader.read_token(), Some(Ok(Token::EndElement("")))));
    assert!(matches!(reader.read_token(), Some(Ok(Token::EndElement("a")))));
    assert!(reader.read_token().is_none());
}

/// Several root elements may follow each other with white space between.
#[test]
fn multiple_roots_with_whitespace() {
    let mut reader = ReaderForMicroXml::new("<a>x</a> <b>y</b>");
    assert!(matches!(reader.read_token(), Some(Ok(Token::StartElement("a")))));
    assert!(matches!(reader.read_token(), Some(Ok(Token::TextNode("x")))));
    assert!(matches!(reader.read_token(), Some(Ok(Token::EndElement("a")))));
    assert!(matches!(reader.read_token(), Some(Ok(Token::StartElement("b")))));
    assert!(matches!(reader.read_token(), Some(Ok(Token::TextNode("y")))));
    assert!(matches!(reader.read_token(), Some(Ok(Token::EndElement("b")))));
    assert!(reader.read_token().is_none());
}
