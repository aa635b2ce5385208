//! What kind of value the fields of the configuration take.
use vstd::prelude::*;

use crate::text::{self, same};

verus! {

/// The kind of value that a field takes.
#[derive(Clone, Copy, Debug, PartialEq, Eq, Structural)]
pub enum FieldKind {
    /// A text.
    Text,
    /// Something else: a number or a truth value.
    Value,
    /// A field of a section that nothing here interprets, or one that no section
    /// has.
    Open,
}

/// The kind of a field of the `auth` section.
pub open spec fn auth_kind(field: Seq<char>) -> FieldKind {
    if field == "signing_key"@ {
        FieldKind::Text
    } else if field == "buffer_time"@ || field == "expires_time"@ {
        FieldKind::Value
    } else {
        FieldKind::Open
    }
}

/// The kind of a field of the `captcha` section.
pub open spec fn captcha_kind(field: Seq<char>) -> FieldKind {
    if field == "validator"@ {
        FieldKind::Text
    } else if field == "enabled"@ || field == "difficulty"@ {
        FieldKind::Value
    } else {
        FieldKind::Open
    }
}

/// The kind of a field of the `server` section.
pub open spec fn server_kind(field: Seq<char>) -> FieldKind {
    if field == "api_base_path"@ || field == "cors_origins"@ || field == "external_domain"@ || field
        == "host"@ {
        FieldKind::Text
    } else if field == "external_https"@ || field == "port"@ {
        FieldKind::Value
    } else {
        FieldKind::Open
    }
}

/// The kind of the field at a path.
pub open spec fn kind_at(path: Seq<Seq<char>>) -> FieldKind {
    if path.len() != 2 {
        FieldKind::Open
    } else if path[0] == "auth"@ {
        auth_kind(path[1])
    } else if path[0] == "captcha"@ {
        captcha_kind(path[1])
    } else if path[0] == "server"@ {
        server_kind(path[1])
    } else {
        FieldKind::Open
    }
}

/// The kind of the field at a path.
pub fn field_kind(path: &Vec<String>) -> (kind: FieldKind)
    ensures
        kind == kind_at(text::texts(path@)),
{
    if path.len() != 2 {
        return FieldKind::Open;
    }
    let section = path[0].as_str();
    let field = path[1].as_str();
    proof {
        lemma_sections_differ();
    }
    if same(section, "auth") {
        if same(field, "signing_key") {
            return FieldKind::Text;
        }
        if same(field, "buffer_time") || same(field, "expires_time") {
            return FieldKind::Value;
        }
    }
    if same(section, "captcha") {
        if same(field, "validator") {
            return FieldKind::Text;
        }
        if same(field, "enabled") || same(field, "difficulty") {
            return FieldKind::Value;
        }
    }
    if same(section, "server") {
        if same(field, "api_base_path") || same(field, "cors_origins") || same(
            field,
            "external_domain",
        ) || same(field, "host") {
            return FieldKind::Text;
        }
        if same(field, "external_https") || same(field, "port") {
            return FieldKind::Value;
        }
    }
    FieldKind::Open
}

/// The sections have different names.
pub(crate) proof fn lemma_sections_differ()
    ensures
        "auth"@ != "captcha"@,
        "auth"@ != "server"@,
        "captcha"@ != "server"@,
{
    reveal_strlit("auth");
    reveal_strlit("captcha");
    reveal_strlit("server");
    assert("auth"@[0] == 'a' && "captcha"@[0] == 'c' && "server"@[0] == 's');
}

/// The text fields of a section have other names than its other fields.
pub(crate) proof fn lemma_fields_differ()
    ensures
        "signing_key"@ != "buffer_time"@,
        "signing_key"@ != "expires_time"@,
        "validator"@ != "enabled"@,
        "validator"@ != "difficulty"@,
        "api_base_path"@ != "external_https"@,
        "api_base_path"@ != "port"@,
        "cors_origins"@ != "external_https"@,
        "cors_origins"@ != "port"@,
        "external_domain"@ != "external_https"@,
        "external_domain"@ != "port"@,
        "host"@ != "external_https"@,
        "host"@ != "port"@,
{
    reveal_strlit("signing_key");
    reveal_strlit("buffer_time");
    reveal_strlit("expires_time");
    reveal_strlit("validator");
    reveal_strlit("enabled");
    reveal_strlit("difficulty");
    reveal_strlit("api_base_path");
    reveal_strlit("cors_origins");
    reveal_strlit("external_domain");
    reveal_strlit("external_https");
    reveal_strlit("host");
    reveal_strlit("port");
    assert("signing_key"@[0] == 's' && "buffer_time"@[0] == 'b' && "expires_time"@[0] == 'e');
    assert("validator"@[0] == 'v' && "enabled"@[0] == 'e' && "difficulty"@[0] == 'd');
    assert("external_domain"@.len() == 15 && "external_https"@.len() == 14);
    assert("api_base_path"@[0] == 'a' && "cors_origins"@[0] == 'c' && "host"@[0] == 'h');
    assert("external_https"@[0] == 'e' && "port"@[0] == 'p');
}

} // verus!
