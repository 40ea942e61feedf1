//! The shaders that draw the mesh of the materials.
use vstd::prelude::*;

verus! {

/// The dialects of the shading language.
#[derive(Clone, Copy, PartialEq, Eq, Structural, Debug)]
pub enum GlslVersion {
    Gl120,
    Gl140,
    Es100,
    Es300,
}

impl GlslVersion {
    /// The line that a shader begins with.
    pub open spec fn declaration(self) -> Seq<char> {
        match self {
            GlslVersion::Gl120 => "#version 120\n"@,
            GlslVersion::Gl140 => "#version 140\n"@,
            GlslVersion::Es100 => "#version 100\n"@,
            GlslVersion::Es300 => "#version 300 es\n"@,
        }
    }

    /// Whether the dialect has attributes and varyings in place of inputs and outputs.
    pub open spec fn is_legacy(self) -> bool {
        self == GlslVersion::Gl120 || self == GlslVersion::Es100
    }

    fn legacy(self) -> (r: bool)
        ensures
            r == self.is_legacy(),
    {
        match self {
            GlslVersion::Gl120 | GlslVersion::Es100 => true,
            _ => false,
        }
    }
}

/// `egui_glow::ShaderVersion::version_declaration` gives the line that says which dialect a
/// shader is written in, one for each of the four dialects.
#[verifier::external_body]
fn version_declaration(version: GlslVersion) -> (r: &'static str)
    ensures
        r@ == version.declaration(),
{
    match version {
        GlslVersion::Gl120 => eframe::egui_glow::ShaderVersion::Gl120.version_declaration(),
        GlslVersion::Gl140 => eframe::egui_glow::ShaderVersion::Gl140.version_declaration(),
        GlslVersion::Es100 => eframe::egui_glow::ShaderVersion::Es100.version_declaration(),
        GlslVersion::Es300 => eframe::egui_glow::ShaderVersion::Es300.version_declaration(),
    }
}

/// The vertex shader, which hands the normal and the colour on.
pub open spec fn vertex_shader(version: GlslVersion) -> Seq<char> {
    version.declaration() + if version.is_legacy() {
        "attribute vec3 a_pos;\nattribute vec3 a_normal;\nattribute vec3 a_color;\nuniform mat4 u_mvp;\nvarying vec3 v_normal;\nvarying vec3 v_color;\nvoid main() { v_normal = a_normal; v_color = a_color; gl_Position = u_mvp * vec4(a_pos, 1.0); }\n"@
    } else {
        "in vec3 a_pos;\nin vec3 a_normal;\nin vec3 a_color;\nuniform mat4 u_mvp;\nout vec3 v_normal;\nout vec3 v_color;\nvoid main() { v_normal = a_normal; v_color = a_color; gl_Position = u_mvp * vec4(a_pos, 1.0); }\n"@
    }
}

/// The fragment shader, which lights the colour from one direction.
pub open spec fn fragment_shader(version: GlslVersion) -> Seq<char> {
    let precision = if version == GlslVersion::Es100 {
        "precision mediump float;\n"@
    } else {
        ""@
    };
    if version.is_legacy() {
        version.declaration() + precision
            + "varying vec3 v_normal;\nvarying vec3 v_color;\nuniform vec3 u_light_dir;\nvoid main() { float diffuse = max(dot(normalize(v_normal), u_light_dir), 0.0); vec3 lit = v_color * (0.35 + diffuse * 0.65); gl_FragColor = vec4(lit, 1.0); }\n"@
    } else {
        version.declaration()
            + "in vec3 v_normal;\nin vec3 v_color;\nuniform vec3 u_light_dir;\nout vec4 out_color;\nvoid main() { float diffuse = max(dot(normalize(v_normal), u_light_dir), 0.0); vec3 lit = v_color * (0.35 + diffuse * 0.65); out_color = vec4(lit, 1.0); }\n"@
    }
}

/// The vertex and the fragment shader in the given dialect.
pub fn shader_sources(version: GlslVersion) -> (r: (String, String))
    ensures
        r.0@ == vertex_shader(version),
        r.1@ == fragment_shader(version),
{
    let header: &str = version_declaration(version);
    let mut vertex: String = header.to_owned();
    if version.legacy() {
        vertex.append(
            "attribute vec3 a_pos;\nattribute vec3 a_normal;\nattribute vec3 a_color;\nuniform mat4 u_mvp;\nvarying vec3 v_normal;\nvarying vec3 v_color;\nvoid main() { v_normal = a_normal; v_color = a_color; gl_Position = u_mvp * vec4(a_pos, 1.0); }\n",
        );
    } else {
        vertex.append(
            "in vec3 a_pos;\nin vec3 a_normal;\nin vec3 a_color;\nuniform mat4 u_mvp;\nout vec3 v_normal;\nout vec3 v_color;\nvoid main() { v_normal = a_normal; v_color = a_color; gl_Position = u_mvp * vec4(a_pos, 1.0); }\n",
        );
    }
    let mut fragment: String = header.to_owned();
    if version.legacy() {
        if version == GlslVersion::Es100 {
            fragment.append("precision mediump float;\n");
        } else {
            fragment.append("");
        }
        fragment.append(
            "varying vec3 v_normal;\nvarying vec3 v_color;\nuniform vec3 u_light_dir;\nvoid main() { float diffuse = max(dot(normalize(v_normal), u_light_dir), 0.0); vec3 lit = v_color * (0.35 + diffuse * 0.65); gl_FragColor = vec4(lit, 1.0); }\n",
        );
    } else {
        fragment.append(
            "in vec3 v_normal;\nin vec3 v_color;\nuniform vec3 u_light_dir;\nout vec4 out_color;\nvoid main() { float diffuse = max(dot(normalize(v_normal), u_light_dir), 0.0); vec3 lit = v_color * (0.35 + diffuse * 0.65); out_color = vec4(lit, 1.0); }\n",
        );
    }
    (vertex, fragment)
}

} // verus!
