//! What an `addon.json` tells of its addon.

use vstd::prelude::*;

use crate::header::HeaderView;

verus! {

/// The value of a digit of base 16.
pub open spec fn hex_value(c: char) -> int {
    if 'a' <= c <= 'f' {
        c as int - 'a' as int + 10
    } else {
        c as int - '0' as int
    }
}

/// The characters that the inside of a JSON string stands for.
pub open spec fn read_json(s: Seq<char>) -> Seq<char>
    decreases s.len(),
{
    if s.len() == 0 {
        Seq::empty()
    } else if s[0] != '\\' || s.len() == 1 {
        seq![s[0]] + read_json(s.skip(1))
    } else if s[1] == 'u' && s.len() >= 6 {
        seq![
            (4096 * hex_value(s[2]) + 256 * hex_value(s[3]) + 16 * hex_value(s[4]) + hex_value(
                s[5],
            )) as char,
        ] + read_json(s.skip(6))
    } else {
        let c = if s[1] == 'b' {
            '\u{8}'
        } else if s[1] == 't' {
            '\t'
        } else if s[1] == 'n' {
            '\n'
        } else if s[1] == 'f' {
            '\u{c}'
        } else if s[1] == 'r' {
            '\r'
        } else {
            s[1]
        };
        seq![c] + read_json(s.skip(2))
    }
}

/// Characters are escaped one by one, from the front too.
proof fn lemma_escaped_from_front(text: Seq<char>)
    requires
        text.len() > 0,
    ensures
        crate::addon_json::escaped_text(text) == crate::addon_json::escaped(text[0])
            + crate::addon_json::escaped_text(text.skip(1)),
    decreases text.len(),
{
    let rest = text.skip(1);
    let front = text.drop_last();
    if text.len() == 1 {
        assert(front =~= Seq::empty());
        assert(rest =~= Seq::empty());
        assert(crate::addon_json::escaped_text(front) =~= Seq::empty());
    } else {
        lemma_escaped_from_front(front);
        assert(front.skip(1) =~= rest.drop_last());
        assert(rest.last() == text.last());
    }
    assert(crate::addon_json::escaped_text(text) =~= crate::addon_json::escaped(text[0])
        + crate::addon_json::escaped_text(rest));
}

/// A character that was escaped is read back, whatever follows it.
proof fn lemma_escaped_is_read(c: char, more: Seq<char>)
    ensures
        read_json(crate::addon_json::escaped(c) + more) == seq![c] + read_json(more),
{
    let e = crate::addon_json::escaped(c);
    let s = e + more;
    assert(s.skip(e.len() as int) =~= more);
    assert forall|k: int| 0 <= k < e.len() implies #[trigger] s[k] == e[k] by {}
    if e.len() == 6 {
        let n = c as int;
        assert(n < 0x20);
        assert(s[2] == '0' && s[3] == '0');
        assert(hex_value(s[4]) == n / 16);
        assert(hex_value(s[5]) == n % 16);
    }
    assert(e.len() == 1 || e.len() == 2 || e.len() == 6);
}

/// A text that was escaped is read back.
proof fn lemma_text_is_read(text: Seq<char>)
    ensures
        read_json(crate::addon_json::escaped_text(text)) == text,
    decreases text.len(),
{
    if text.len() > 0 {
        let rest = text.skip(1);
        lemma_escaped_from_front(text);
        lemma_escaped_is_read(text[0], crate::addon_json::escaped_text(rest));
        lemma_text_is_read(rest);
        assert(seq![text[0]] + rest =~= text);
    } else {
        assert(text =~= Seq::empty());
    }
}

/// Every character of a text stands in its JSON string: read as JSON, what is between the two
/// quotation marks is the text again.
pub proof fn law_json_strings_are_read_back(text: Seq<char>)
    ensures
        ({
            let json = crate::addon_json::json_string(text);
            &&& json.len() >= 2
            &&& json[0] == '"'
            &&& json.last() == '"'
            &&& read_json(json.subrange(1, json.len() - 1)) == text
        }),
{
    let json = crate::addon_json::json_string(text);
    assert(json.subrange(1, json.len() - 1) =~= crate::addon_json::escaped_text(text));
    lemma_text_is_read(text);
}

/// Text that has nothing to escape stands in its JSON string as it is.
proof fn lemma_plain_text(text: Seq<char>)
    requires
        forall|i: int|
            0 <= i < text.len() ==> (#[trigger] text[i]) as int >= 0x20 && text[i] != '"' && text[i]
                != '\\',
    ensures
        crate::addon_json::json_string(text) == seq!['"'] + text + seq!['"'],
        crate::addon_json::escaped_text(text) == text,
    decreases text.len(),
{
    if text.len() > 0 {
        let front = text.drop_last();
        assert forall|i: int| 0 <= i < front.len() implies (#[trigger] front[i]) as int >= 0x20
            && front[i] != '"' && front[i] != '\\' by {
            assert(front[i] == text[i]);
        }
        lemma_plain_text(front);
        let c = text[text.len() - 1];
        assert(c as int >= 0x20);
        assert(front + seq![c] =~= text);
    } else {
        assert(crate::addon_json::escaped_text(text) =~= text);
    }
}

/// What becomes of the members of a description that is a JSON object: each stays as it is; and if
/// none is a title, there is one more, whose value is the whole title of the addon.
pub proof fn law_title_is_whole(given: Map<Seq<char>, Seq<char>>, title: Seq<u8>)
    ensures
        ({
            let after = crate::addon_json::titled(given, title);
            &&& forall|name: Seq<char>|
                #![trigger after.contains_key(name)]
                after.contains_key(name) <==> given.contains_key(name) || name == "title"@
            &&& forall|name: Seq<char>|
                #![trigger after[name]]
                given.contains_key(name) ==> after[name] == given[name]
            &&& !given.contains_key("title"@) ==> after["title"@]
                == crate::addon_json::json_string(crate::text::lossy(title))
        }),
{
}

/// The `addon.json` of an archive: if its description is the text of a JSON object, that object with
/// the members that it has, and with the whole title of the archive where it has none; and if it is
/// not, an object that tells the whole title and the whole description, in this order.
pub proof fn law_addon_json(head: HeaderView, after: Map<Seq<char>, Seq<char>>)
    ensures
        ({
            let text = crate::extract::addon_json_of(head);
            let title = crate::addon_json::json_string(crate::text::lossy(head.title));
            let description = crate::addon_json::json_string(
                crate::text::lossy(head.addon_json),
            );
            match crate::addon_json::json_object(head.addon_json) {
                Some(given) => {
                    &&& (forall|name: Seq<char>| #[trigger]
                        after.contains_key(name) <==> given.contains_key(name) || name == "title"@)
                        && (forall|name: Seq<char>| #[trigger]
                        given.contains_key(name) ==> after[name] == given[name]) && (
                    !given.contains_key("title"@) ==> after["title"@] == title) ==> text
                        == crate::addon_json::pretty_object(after)
                },
                None => text == "{\n  \"title\": "@ + title + ",\n  \"description\": "@ + description
                    + "\n}"@,
            }
        }),
{
    let text = crate::extract::addon_json_of(head);
    let title = crate::addon_json::json_string(crate::text::lossy(head.title));
    let description = crate::addon_json::json_string(crate::text::lossy(head.addon_json));
    match crate::addon_json::json_object(head.addon_json) {
        Some(given) => {
            if (forall|name: Seq<char>| #[trigger]
                after.contains_key(name) <==> given.contains_key(name) || name == "title"@) && (
            forall|name: Seq<char>| #[trigger]
                given.contains_key(name) ==> after[name] == given[name]) && (!given.contains_key(
                "title"@,
            ) ==> after["title"@] == title) {
                let right = crate::addon_json::titled(given, head.title);
                assert forall|name: Seq<char>| #[trigger] after.contains_key(name) implies after[name]
                    == right[name] by {
                    if given.contains_key(name) {
                    }
                }
                assert(after =~= right);
            }
        },
        None => {
            reveal_strlit("title");
            reveal_strlit("description");
            reveal_strlit("{\n  ");
            reveal_strlit(": ");
            reveal_strlit(",\n  ");
            reveal_strlit("{\n  \"title\": ");
            reveal_strlit(",\n  \"description\": ");
            lemma_plain_text("title"@);
            lemma_plain_text("description"@);
            assert("{\n  "@ + crate::addon_json::json_string("title"@) + ": "@
                =~= "{\n  \"title\": "@);
            assert(",\n  "@ + crate::addon_json::json_string("description"@) + ": "@
                =~= ",\n  \"description\": "@);
            assert(text =~= ("{\n  "@ + crate::addon_json::json_string("title"@) + ": "@) + title + (
            ",\n  "@ + crate::addon_json::json_string("description"@) + ": "@) + description
                + "\n}"@);
        },
    }
}

/// What a character more adds to the JSON string of a text: itself, unless it is a quotation mark, a
/// backslash or a control character. Those are escaped, with one letter where there is one for it, and
/// else with its number in four small digits of base 16.
pub proof fn law_json_escapes(text: Seq<char>, c: char)
    ensures
        crate::addon_json::json_string(Seq::empty()) == seq!['"', '"'],
        ({
            let longer = crate::addon_json::json_string(text.push(c));
            let front = crate::addon_json::json_string(text).drop_last();
            let added = longer.subrange(front.len() as int, longer.len() - 1);
            &&& longer == front + added + seq!['"']
            &&& c as int >= 0x20 && c != '"' && c != '\\' ==> added == seq![c]
            &&& c == '"' ==> added == seq!['\\', '"']
            &&& c == '\\' ==> added == seq!['\\', '\\']
            &&& c == '\u{8}' ==> added == seq!['\\', 'b']
            &&& c == '\t' ==> added == seq!['\\', 't']
            &&& c == '\n' ==> added == seq!['\\', 'n']
            &&& c == '\u{c}' ==> added == seq!['\\', 'f']
            &&& c == '\r' ==> added == seq!['\\', 'r']
            &&& (c as int) < 0x20 && c != '\u{8}' && c != '\t' && c != '\n' && c != '\u{c}' && c != '\r'
                ==> {
                &&& added.len() == 6
                &&& added.take(4) == seq!['\\', 'u', '0', '0']
                &&& added[4] == '0' || added[4] == '1'
                &&& '0' <= added[5] <= '9' || 'a' <= added[5] <= 'f'
                &&& c as int == 16 * hex_value(added[4]) + hex_value(added[5])
            }
        }),
{
    let none = Seq::<char>::empty();
    assert(crate::addon_json::escaped_text(none) =~= none);
    assert(crate::addon_json::json_string(none) =~= seq!['"', '"']);
    let longer = crate::addon_json::json_string(text.push(c));
    let front = crate::addon_json::json_string(text).drop_last();
    let added = longer.subrange(front.len() as int, longer.len() - 1);
    assert(text.push(c).drop_last() =~= text);
    assert(front =~= seq!['"'] + crate::addon_json::escaped_text(text));
    assert(longer =~= front + crate::addon_json::escaped(c) + seq!['"']);
    assert(added =~= crate::addon_json::escaped(c));
    if added.len() == 6 {
        assert(added.take(4) =~= seq!['\\', 'u', '0', '0']);
    }
}

} // verus!
