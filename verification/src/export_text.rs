//! The fixed parts of what models are written to.

use vstd::prelude::*;

verus! {

/// Everything before the name of the board in the title.
pub const PREVIEW_START: &'static str = r##"<!DOCTYPE html>
<html lang="en">
<head>
    <meta charset="UTF-8">
    <meta name="viewport" content="width=device-width, initial-scale=1.0">
    <title>kicad2print 3D Preview - "##;

/// Between the title and the name of the board on the page.
pub const PREVIEW_NAME: &'static str = r##"</title>
    <style>
        body {
            margin: 0;
            overflow: hidden;
            font-family: -apple-system, BlinkMacSystemFont, "Segoe UI", Roboto, sans-serif;
            background: #1a1a1a;
            color: #fff;
        }
        #info {
            position: absolute;
            top: 10px;
            left: 10px;
            background: rgba(0, 0, 0, 0.7);
            padding: 15px;
            border-radius: 8px;
            font-size: 14px;
            line-height: 1.6;
            max-width: 300px;
            z-index: 10;
        }
        #info h2 {
            margin: 0 0 10px 0;
            font-size: 16px;
        }
        #info p {
            margin: 5px 0;
        }
        #controls {
            position: absolute;
            bottom: 10px;
            left: 10px;
            background: rgba(0, 0, 0, 0.7);
            padding: 15px;
            border-radius: 8px;
            font-size: 12px;
            z-index: 10;
        }
        #controls p {
            margin: 5px 0;
        }
    </style>
</head>
<body>
    <div id="info">
        <h2>kicad2print Preview</h2>
        <p><strong>"##;

/// Between the name of the board and the number of triangles.
pub const PREVIEW_COUNT: &'static str = "</strong></p>\n        <p>Triangles: ";

/// Between the number of triangles and the width.
pub const PREVIEW_WIDTH: &'static str = "</p>\n        <p>Size: ";

/// Between two sizes.
pub const PREVIEW_BY: &'static str = " × ";

/// Between the sizes and the vertices.
pub const PREVIEW_VERTICES: &'static str = r##" mm</p>
    </div>
    <div id="controls">
        <p><strong>Controls:</strong></p>
        <p>🖱️ Drag: Rotate</p>
        <p>🖱️ Scroll: Zoom</p>
        <p>Right-Click Drag: Pan</p>
    </div>

    <script src="https://cdnjs.cloudflare.com/ajax/libs/three.js/r128/three.min.js"></script>
    <script>
        const scene = new THREE.Scene();
        scene.background = new THREE.Color(0x2a2a2a);
        const camera = new THREE.PerspectiveCamera(75, window.innerWidth / window.innerHeight, 0.1, 10000);
        const renderer = new THREE.WebGLRenderer({ antialias: true });
        renderer.setSize(window.innerWidth, window.innerHeight);
        renderer.shadowMap.enabled = true;
        document.body.appendChild(renderer.domElement);

        const ambientLight = new THREE.AmbientLight(0xffffff, 0.6);
        scene.add(ambientLight);
        const directionalLight = new THREE.DirectionalLight(0xffffff, 0.8);
        directionalLight.position.set(10, 20, 10);
        directionalLight.castShadow = true;
        scene.add(directionalLight);

        const vertices = "##;

/// Between the vertices and the triangles.
pub const PREVIEW_INDICES: &'static str = ";\n        const indices = ";

/// The rest of the page.
pub const PREVIEW_END: &'static str = r##";
        const geometry = new THREE.BufferGeometry();
        geometry.setAttribute('position', new THREE.BufferAttribute(new Float32Array(vertices), 3));
        geometry.setIndex(new THREE.BufferAttribute(new Uint32Array(indices), 1));
        geometry.computeVertexNormals();

        const material = new THREE.MeshPhongMaterial({ color: 0xffd700, shininess: 100 });
        const mesh = new THREE.Mesh(geometry, material);
        mesh.castShadow = true;
        mesh.receiveShadow = true;
        scene.add(mesh);

        const gridHelper = new THREE.GridHelper(200, 20, 0x444444, 0x222222);
        scene.add(gridHelper);

        geometry.computeBoundingBox();
        const box = geometry.boundingBox;
        const center = new THREE.Vector3();
        box.getCenter(center);
        const size = box.getSize(new THREE.Vector3());
        const maxDim = Math.max(size.x, size.y, size.z);
        const fov = camera.fov * (Math.PI / 180);
        let cameraZ = Math.abs(maxDim / 2 / Math.tan(fov / 2)) * 1.5;
        camera.position.set(center.x, center.y + size.z / 2, center.z + cameraZ);
        camera.lookAt(center);

        let isDragging = false, isPanning = false;
        let prevMouse = { x: 0, y: 0 };
        const rotation = { x: 0, y: 0 };

        renderer.domElement.addEventListener('mousedown', (e) => {
            isDragging = e.button === 0;
            isPanning = e.button === 2;
            prevMouse = { x: e.clientX, y: e.clientY };
        });

        renderer.domElement.addEventListener('mousemove', (e) => {
            if (isDragging) {
                rotation.y += (e.clientX - prevMouse.x) * 0.01;
                rotation.x += (e.clientY - prevMouse.y) * 0.01;
                mesh.rotation.y = rotation.y;
                mesh.rotation.x = rotation.x;
            } else if (isPanning) {
                camera.position.x -= (e.clientX - prevMouse.x) * 0.1;
                camera.position.y += (e.clientY - prevMouse.y) * 0.1;
            }
            prevMouse = { x: e.clientX, y: e.clientY };
        });

        renderer.domElement.addEventListener('mouseup', () => {
            isDragging = false;
            isPanning = false;
        });

        renderer.domElement.addEventListener('wheel', (e) => {
            e.preventDefault();
            const dir = camera.position.clone().sub(center).normalize();
            const dist = camera.position.distanceTo(center);
            const newDist = e.deltaY > 0 ? dist * 1.1 : dist / 1.1;
            camera.position.copy(center.clone().add(dir.multiplyScalar(newDist)));
        });

        renderer.domElement.addEventListener('contextmenu', e => e.preventDefault());

        function animate() {
            requestAnimationFrame(animate);
            renderer.render(scene, camera);
        }
        animate();

        window.addEventListener('resize', () => {
            camera.aspect = window.innerWidth / window.innerHeight;
            camera.updateProjectionMatrix();
            renderer.setSize(window.innerWidth, window.innerHeight);
        });
    </script>
</body>
</html>"##;

/// The kinds of files in the archive of a model.
pub const CONTENT_TYPES: &'static str = "<?xml version=\"1.0\" encoding=\"UTF-8\"?>\n<Types xmlns=\"http://schemas.openxmlformats.org/package/2006/content-types\">\n<Default Extension=\"rels\" ContentType=\"application/vnd.openxmlformats-package.relationships+xml\"/>\n<Default Extension=\"model\" ContentType=\"application/vnd.ms-package.3dmanufacturing-3dmodel+xml\"/>\n</Types>";

/// Which file of the archive is the model.
pub const RELS: &'static str = "<?xml version=\"1.0\" encoding=\"UTF-8\"?>\n<Relationships xmlns=\"http://schemas.openxmlformats.org/package/2006/relationships\">\n<Relationship Target=\"/3D/3dmodel.model\" Id=\"rel0\" Type=\"http://schemas.microsoft.com/3dmanufacturing/2013/01/3dmodel\"/>\n</Relationships>";

/// The start of a model.
pub const MODEL_START: &'static str = "<?xml version=\"1.0\" encoding=\"UTF-8\"?>\n<model unit=\"millimeter\" xmlns=\"http://schemas.microsoft.com/3dmanufacturing/core/2015/02\">\n<resources><object id=\"1\" type=\"model\"><mesh>\n<vertices>\n";

/// Between the vertices and the triangles of a model.
pub const MODEL_TRIANGLES: &'static str = "</vertices>\n<triangles>\n";

/// The end of a model.
pub const MODEL_END: &'static str = "</triangles>\n</mesh></object></resources>\n<build><item objectid=\"1\"/></build>\n</model>";

} // verus!
