# objviewer

A viewer for Wavefront OBJ meshes. The library in `src/` is verified with
Verus; the window, the GPU and the floating-point geometry live in `app/`.

- `src/text.rs`: whitespace trimming and splitting, `i32` and float-literal
  recognition, small string helpers, each stated against a spec function.
- `src/parser.rs`: the OBJ parser. `ObjData::parse` takes the file's bytes
  and returns exactly `spec_parse` of them: the model, or the first error.
  Coordinates stay as the text the file gives, every one of them a literal
  that `str::parse::<f32>` accepts. `ObjData::parse_with_warnings` also
  gives the keywords of the statements read past with a warning.
- `src/mesh.rs`: the index buffer of a model, the choice between the file's
  normals and generated ones, and the triangles that feed generated normals.
- `src/edges.rs`: the edges of a triangle index buffer with the triangles
  that share each of them, and which of them the sharp-edge overlay draws.
- `src/ui.rs`: toolbar state, what each button asks for, and how a frame's
  action moves camera and toolbar.
- `app/`: `main`, file reading, the egui toolbar, the wgpu renderer, the
  camera and the floating-point parts of mesh building.

The `law_*` proof functions state properties that span calls: comments,
grouping and material statements change nothing, a line continuation is the
same as joining the two lines, index references resolve 1-based or from the
end, and so on.
